//! Framing of server-sent events.
//!
//! An event block ends at the first line ending that another line ending
//! follows at once. A line ends with LF, CR or CRLF; a CR that is the last byte
//! received says nothing yet, unless the stream has ended.
use crate::text::{
    after_prefix, begins, join, joined, pieces, pieces_after, split, strip_prefix, texts,
    trim_start, trimmed_start, white_space,
};
use vstd::prelude::*;
use vstd::string::*;
use vstd::utf8::*;

verus! {

/// The most bytes that one event block may take.
pub const MAX_SSE_FRAME_BYTES: usize = 8388608;

/// Where the first event block ends, and how many bytes it takes with the two
/// line endings behind it.
#[derive(Debug, Clone, Copy, PartialEq, Eq, Structural)]
pub struct SseBlockBoundary {
    pub block_end: usize,
    pub drain_len: usize,
}

/// The length of the line ending that starts at an index.
pub open spec fn line_ending(bytes: Seq<u8>, index: int, end_of_stream: bool) -> Option<int> {
    if !(0 <= index < bytes.len()) {
        None
    } else if bytes[index] == 10 {
        Some(1)
    } else if bytes[index] != 13 {
        None
    } else if index + 1 < bytes.len() {
        if bytes[index + 1] == 10 {
            Some(2)
        } else {
            Some(1)
        }
    } else if end_of_stream {
        Some(1)
    } else {
        None
    }
}

/// The first place from an index on where two line endings follow each other:
/// where the first begins, and where the second ends.
pub open spec fn boundary_from(bytes: Seq<u8>, from: int, end_of_stream: bool) -> Option<
    (int, int),
>
    decreases bytes.len() - from,
{
    if !(0 <= from < bytes.len()) {
        None
    } else {
        match line_ending(bytes, from, end_of_stream) {
            Some(first) => match line_ending(bytes, from + first, end_of_stream) {
                Some(second) => Some((from, from + first + second)),
                None => boundary_from(bytes, from + 1, end_of_stream),
            },
            None => boundary_from(bytes, from + 1, end_of_stream),
        }
    }
}

/// The first place where two line endings follow each other.
pub open spec fn first_boundary(bytes: Seq<u8>, end_of_stream: bool) -> Option<(int, int)> {
    boundary_from(bytes, 0, end_of_stream)
}

/// What a boundary says.
pub open spec fn boundary_view(boundary: Option<SseBlockBoundary>) -> Option<(int, int)> {
    match boundary {
        Some(boundary) => Some((boundary.block_end as int, boundary.drain_len as int)),
        None => None,
    }
}

/// The length of the line ending that starts at an index.
pub fn sse_line_ending_len(buffer: &[u8], index: usize, end_of_stream: bool) -> (length: Option<
    usize,
>)
    ensures
        match length {
            Some(length) => line_ending(buffer@, index as int, end_of_stream) == Some(length as int),
            None => line_ending(buffer@, index as int, end_of_stream) is None,
        },
{
    if index >= buffer.len() {
        return None;
    }
    if buffer[index] == 10 {
        return Some(1);
    }
    if buffer[index] != 13 {
        return None;
    }
    if index + 1 < buffer.len() {
        if buffer[index + 1] == 10 {
            Some(2)
        } else {
            Some(1)
        }
    } else if end_of_stream {
        Some(1)
    } else {
        None
    }
}

/// The end of the first event block, where the buffer holds a whole one.
pub fn next_sse_block_boundary(buffer: &[u8], end_of_stream: bool) -> (boundary: Option<
    SseBlockBoundary,
>)
    ensures
        boundary_view(boundary) == first_boundary(buffer@, end_of_stream),
        boundary matches Some(found) ==> found.block_end + 2 <= found.drain_len <= buffer@.len(),
{
    let mut index: usize = 0;
    while index < buffer.len()
        invariant
            index <= buffer@.len(),
            first_boundary(buffer@, end_of_stream) == boundary_from(
                buffer@,
                index as int,
                end_of_stream,
            ),
        decreases buffer@.len() - index,
    {
        match sse_line_ending_len(buffer, index, end_of_stream) {
            None => {
                index += 1;
            },
            Some(first_len) => {
                let second_start: usize = index + first_len;
                if let Some(second_len) = sse_line_ending_len(buffer, second_start, end_of_stream) {
                    return Some(
                        SseBlockBoundary { block_end: index, drain_len: second_start + second_len },
                    );
                }
                proof {
                    reveal_with_fuel(boundary_from, 3);
                }
                index = second_start;
            },
        }
    }
    None
}

/// A boundary lies within the bytes, and its second line ending begins before
/// their end.
pub proof fn lemma_boundary_bounds(bytes: Seq<u8>, from: int, end_of_stream: bool)
    requires
        boundary_from(bytes, from, end_of_stream) is Some,
    ensures
        ({
            let (end, drained) = boundary_from(bytes, from, end_of_stream)->0;
            &&& 0 <= from <= end
            &&& end + 2 <= drained <= bytes.len()
            &&& line_ending(bytes, end, end_of_stream) is Some
            &&& line_ending(
                bytes,
                end + line_ending(bytes, end, end_of_stream)->0,
                end_of_stream,
            ) == Some(drained - end - line_ending(bytes, end, end_of_stream)->0)
        }),
    decreases bytes.len() - from,
{
    match line_ending(bytes, from, end_of_stream) {
        Some(first) => {
            if line_ending(bytes, from + first, end_of_stream) is None {
                lemma_boundary_bounds(bytes, from + 1, end_of_stream);
            }
        },
        None => {
            lemma_boundary_bounds(bytes, from + 1, end_of_stream);
        },
    }
}

/// A boundary that is found in what has been received stays where it is when
/// more bytes arrive, whether or not the stream ends with them.
pub proof fn law_boundary_is_stable(received: Seq<u8>, more: Seq<u8>, from: int)
    requires
        boundary_from(received, from, false) is Some,
    ensures
        boundary_from(received + more, from, false) == boundary_from(received, from, false),
        boundary_from(received + more, from, true) == boundary_from(received, from, false),
    decreases received.len() - from,
{
    let all = received + more;
    lemma_boundary_bounds(received, from, false);
    let (end, drained) = boundary_from(received, from, false)->0;
    let first = line_ending(received, end, false)->0;
    assert(all[end] == received[end]);
    assert(end + first < received.len());
    assert(all[end + first] == received[end + first]);
    if end + 1 < received.len() {
        assert(all[end + 1] == received[end + 1]);
    }
    if end + first + 1 < received.len() {
        assert(all[end + first + 1] == received[end + first + 1]);
    }
    if from < end {
        assert(all[from] == received[from]);
        assert(all[from + 1] == received[from + 1]);
        law_boundary_is_stable(received, more, from + 1);
        match line_ending(received, from, false) {
            Some(length) => {
                assert(line_ending(all, from, false) == Some(length));
                if from + length < received.len() {
                    assert(all[from + length] == received[from + length]);
                    if from + length + 1 < received.len() {
                        assert(all[from + length + 1] == received[from + length + 1]);
                    }
                }
            },
            None => {},
        }
    }
}

/// The event blocks that the bytes hold in full.
pub open spec fn frames(bytes: Seq<u8>, end_of_stream: bool) -> Seq<Seq<u8>>
    decreases bytes.len(),
{
    match first_boundary(bytes, end_of_stream) {
        Some((end, drained)) => if 0 < drained <= bytes.len() {
            seq![bytes.take(end)] + frames(bytes.skip(drained), end_of_stream)
        } else {
            seq![]
        },
        None => seq![],
    }
}

/// What is left behind the event blocks that the bytes hold in full.
pub open spec fn leftover(bytes: Seq<u8>, end_of_stream: bool) -> Seq<u8>
    decreases bytes.len(),
{
    match first_boundary(bytes, end_of_stream) {
        Some((end, drained)) => if 0 < drained <= bytes.len() {
            leftover(bytes.skip(drained), end_of_stream)
        } else {
            bytes
        },
        None => bytes,
    }
}

/// How a stream is cut into chunks has no influence on its event blocks: the
/// blocks of a stream are those of its beginning, and then those of what the
/// beginning left over together with the rest.
pub proof fn law_frames_ignore_chunking(received: Seq<u8>, more: Seq<u8>)
    ensures
        frames(received + more, false) == frames(received, false) + frames(
            leftover(received, false) + more,
            false,
        ),
        leftover(received + more, false) == leftover(leftover(received, false) + more, false),
    decreases received.len(),
{
    if first_boundary(received, false) is Some {
        lemma_boundary_bounds(received, 0, false);
        law_boundary_is_stable(received, more, 0);
        let (end, drained) = first_boundary(received, false)->0;
        let rest = received.skip(drained);
        assert((received + more).take(end) =~= received.take(end));
        assert((received + more).skip(drained) =~= rest + more);
        law_frames_ignore_chunking(rest, more);
        assert(seq![received.take(end)] + (frames(rest, false) + frames(
            leftover(rest, false) + more,
            false,
        )) =~= seq![received.take(end)] + frames(rest, false) + frames(
            leftover(rest, false) + more,
            false,
        ));
    } else {
        assert(seq![] + frames(received + more, false) =~= frames(received + more, false));
    }
}

/// Whether an event block of so many bytes has reached the limit.
pub fn sse_frame_limit_reached(frame_bytes: usize, max_frame_bytes: usize) -> (reached: bool)
    ensures
        reached == (frame_bytes >= max_frame_bytes),
{
    frame_bytes >= max_frame_bytes
}

/// The ASCII bytes that count as white space: space, tab, LF, FF and CR.
pub open spec fn blank_byte(byte: u8) -> bool {
    byte == 32 || byte == 9 || byte == 10 || byte == 12 || byte == 13
}

/// The bytes from the first on that is not white space.
pub open spec fn skip_blank(bytes: Seq<u8>) -> Seq<u8>
    decreases bytes.len(),
{
    if bytes.len() > 0 && blank_byte(bytes[0]) {
        skip_blank(bytes.drop_first())
    } else {
        bytes
    }
}

/// How many bytes of white space there are at the front.
pub fn blank_prefix(body: &[u8]) -> (start: usize)
    ensures
        start <= body@.len(),
        skip_blank(body@) == body@.skip(start as int),
{
    let mut start: usize = 0;
    assert(body@.skip(0) =~= body@);
    while start < body.len() && (body[start] == 32 || body[start] == 9 || body[start] == 10
        || body[start] == 12 || body[start] == 13)
        invariant
            start <= body@.len(),
            skip_blank(body@) == skip_blank(body@.skip(start as int)),
        decreases body@.len() - start,
    {
        assert(body@.skip(start as int).drop_first() =~= body@.skip(start + 1));
        start += 1;
    }
    start
}

fn bytes_begin(body: &[u8], from: usize, prefix: &[u8]) -> (found: bool)
    requires
        from <= body@.len(),
    ensures
        found == begins(body@.skip(from as int), prefix@),
{
    let total: usize = body.len();
    if prefix.len() > total - from {
        return false;
    }
    let ghost rest = body@.skip(from as int);
    let mut index: usize = 0;
    while index < prefix.len()
        invariant
            index <= prefix@.len() <= rest.len(),
            from <= body@.len(),
            total == body@.len(),
            rest == body@.skip(from as int),
            rest.len() == body@.len() - from,
            forall|i: int| 0 <= i < index ==> rest[i] == prefix@[i],
        decreases prefix@.len() - index,
    {
        if body[from + index] != prefix[index] {
            assert(rest[index as int] == body@[from + index]);
            assert(rest.take(prefix@.len() as int)[index as int] != prefix@[index as int]);
            return false;
        }
        index += 1;
    }
    assert(rest.take(prefix@.len() as int) =~= prefix@);
    true
}

/// Whether the bytes begin with the name of a field of an event, or a comment.
pub open spec fn begins_event(bytes: Seq<u8>) -> bool {
    ||| begins(bytes, encode_utf8("data:"@))
    ||| begins(bytes, encode_utf8("event:"@))
    ||| begins(bytes, encode_utf8("id:"@))
    ||| begins(bytes, encode_utf8("retry:"@))
    ||| begins(bytes, encode_utf8(":"@))
}

/// Whether the bytes are the beginning of the name of a field of an event.
pub open spec fn begins_field_name(bytes: Seq<u8>) -> bool {
    ||| begins(encode_utf8("data:"@), bytes)
    ||| begins(encode_utf8("event:"@), bytes)
    ||| begins(encode_utf8("id:"@), bytes)
    ||| begins(encode_utf8("retry:"@), bytes)
}

fn event_begins_at(body: &[u8], start: usize) -> (found: bool)
    requires
        start <= body@.len(),
    ensures
        found == begins_event(body@.skip(start as int)),
{
    bytes_begin(body, start, "data:".as_bytes()) || bytes_begin(body, start, "event:".as_bytes())
        || bytes_begin(body, start, "id:".as_bytes()) || bytes_begin(
        body,
        start,
        "retry:".as_bytes(),
    ) || bytes_begin(body, start, ":".as_bytes())
}

/// Whether a body reads as server-sent events.
pub fn looks_like_sse(body: &[u8]) -> (found: bool)
    ensures
        found == begins_event(skip_blank(body@)),
{
    let start: usize = blank_prefix(body);
    event_begins_at(body, start)
}

/// Whether a body that is still arriving may turn out to be server-sent events.
pub fn could_start_sse_frame(body: &[u8]) -> (possible: bool)
    ensures
        possible == (skip_blank(body@).len() == 0 || begins_event(skip_blank(body@))
            || begins_field_name(skip_blank(body@))),
{
    let start: usize = blank_prefix(body);
    if start == body.len() {
        return true;
    }
    let rest = vstd::slice::slice_subrange(body, start, body.len());
    proof {
        assert(rest@ =~= body@.skip(start as int));
        assert(encode_utf8("data:"@).skip(0) =~= encode_utf8("data:"@));
        assert(encode_utf8("event:"@).skip(0) =~= encode_utf8("event:"@));
        assert(encode_utf8("id:"@).skip(0) =~= encode_utf8("id:"@));
        assert(encode_utf8("retry:"@).skip(0) =~= encode_utf8("retry:"@));
    }
    event_begins_at(body, start) || bytes_begin("data:".as_bytes(), 0, rest) || bytes_begin(
        "event:".as_bytes(),
        0,
        rest,
    ) || bytes_begin("id:".as_bytes(), 0, rest) || bytes_begin("retry:".as_bytes(), 0, rest)
}

/// What `String::from_utf8_lossy` makes of a byte string.
pub uninterp spec fn utf8_lossy(bytes: Seq<u8>) -> Seq<char>;

/// `String::from_utf8_lossy` decodes UTF-8 and replaces what is not UTF-8. The
/// replacement is left to its name; valid UTF-8 is decoded as it stands.
#[verifier::external_body]
pub(crate) fn lossy_text(bytes: &[u8]) -> (text: String)
    ensures
        text@ == utf8_lossy(bytes@),
        valid_utf8(bytes@) ==> text@ == decode_utf8(bytes@),
{
    String::from_utf8_lossy(bytes).into_owned()
}

/// What the `data` lines among the lines of an event block say, each without
/// white space at its front. Empty ones are kept or left out.
pub open spec fn data_lines(lines: Seq<Seq<char>>, keep_empty: bool) -> Seq<Seq<char>>
    decreases lines.len(),
{
    if lines.len() == 0 {
        seq![]
    } else {
        let before = data_lines(lines.drop_last(), keep_empty);
        match after_prefix(lines.last(), "data:"@) {
            Some(rest) => if keep_empty || trim_start(rest).len() > 0 {
                before.push(trim_start(rest))
            } else {
                before
            },
            None => before,
        }
    }
}

/// The data of an event block: its `data` lines, joined by LF.
pub open spec fn event_data(block: Seq<char>, keep_empty: bool) -> Seq<char> {
    joined(data_lines(pieces(block, seq!['\r', '\n']), keep_empty), "\n"@)
}

/// The data of an event block.
pub fn event_data_of(block: &str, keep_empty: bool) -> (data: String)
    ensures
        data@ == event_data(block@, keep_empty),
{
    let breaks: [char; 2] = ['\r', '\n'];
    let lines = split(block, breaks.as_slice());
    assert(breaks@ =~= seq!['\r', '\n']);
    let mut found: Vec<String> = Vec::new();
    let mut index: usize = 0;
    assert(texts(found@) =~= seq![]);
    while index < lines.len()
        invariant
            index <= lines@.len(),
            texts(found@) == data_lines(texts(lines@).take(index as int), keep_empty),
        decreases lines@.len() - index,
    {
        let ghost all = texts(lines@);
        let ghost before = texts(found@);
        assert(all.take(index + 1).drop_last() =~= all.take(index as int));
        assert(all.take(index + 1).last() == lines@[index as int]@);
        if let Some(rest) = strip_prefix(&lines[index], "data:") {
            let line = trimmed_start(&rest);
            let empty = line.as_str().is_empty();
            if keep_empty || !empty {
                let ghost content = line@;
                found.push(line);
                assert(texts(found@) =~= before.push(content));
            }
        }
        index += 1;
    }
    assert(texts(lines@).take(index as int) =~= texts(lines@));
    join(&found, "\n")
}

/// Whether a text is one line.
pub open spec fn one_line(s: Seq<char>) -> bool {
    forall|i: int| 0 <= i < s.len() ==> (#[trigger] s[i]) != '\r' && s[i] != '\n'
}

proof fn lemma_one_piece(s: Seq<char>, before: Seq<char>)
    requires
        one_line(s),
    ensures
        pieces_after(s, seq!['\r', '\n'], before) == seq![before + s],
    decreases s.len(),
{
    let ends = seq!['\r', '\n'];
    if s.len() == 0 {
        assert(before + s =~= before);
    } else {
        let rest = s.drop_first();
        assert forall|i: int| 0 <= i < rest.len() implies (#[trigger] rest[i]) != '\r' && rest[i]
            != '\n' by {
            assert(rest[i] == s[i + 1]);
        }
        assert(s[0] != '\r' && s[0] != '\n');
        lemma_one_piece(rest, before.push(s[0]));
        assert(before.push(s[0]) + rest =~= before + s);
    }
}

proof fn lemma_next_piece(s: Seq<char>, more: Seq<char>, before: Seq<char>)
    requires
        one_line(s),
    ensures
        pieces_after(s.push('\n') + more, seq!['\r', '\n'], before) == seq![before + s]
            + pieces_after(more, seq!['\r', '\n'], seq![]),
    decreases s.len(),
{
    let ends = seq!['\r', '\n'];
    let whole = s.push('\n') + more;
    assert(ends[1] == '\n');
    if s.len() == 0 {
        assert(whole[0] == '\n');
        assert(ends.contains(whole[0]));
        assert(whole.drop_first() =~= more);
        assert(before + s =~= before);
    } else {
        let rest = s.drop_first();
        assert forall|i: int| 0 <= i < rest.len() implies (#[trigger] rest[i]) != '\r' && rest[i]
            != '\n' by {
            assert(rest[i] == s[i + 1]);
        }
        assert(s[0] != '\r' && s[0] != '\n');
        assert(whole[0] == s[0]);
        lemma_next_piece(rest, more, before.push(s[0]));
        assert(whole.drop_first() =~= rest.push('\n') + more);
        assert(before.push(s[0]) + rest =~= before + s);
    }
}

proof fn lemma_data_line(lines: Seq<Seq<char>>, said: Seq<char>, keep_empty: bool)
    requires
        said.len() > 0,
        !white_space(said[0]),
    ensures
        data_lines(lines.push("data: "@ + said), keep_empty) == data_lines(lines, keep_empty).push(
            said,
        ),
{
    reveal_strlit("data: ");
    reveal_strlit("data:");
    let line = "data: "@ + said;
    assert("data: "@.len() == 6 && "data:"@.len() == 5);
    assert(line.take(5) =~= "data:"@);
    let rest = line.skip(5);
    assert(rest[0] == ' ');
    assert(white_space(' '));
    assert(rest.drop_first() =~= said);
    assert(trim_start(said) == said);
    assert(trim_start(rest) == said);
    assert(lines.push(line).drop_last() =~= lines);
}

proof fn lemma_data_line_is_one(said: Seq<char>)
    requires
        one_line(said),
    ensures
        one_line("data: "@ + said),
{
    reveal_strlit("data: ");
    let line = "data: "@ + said;
    assert forall|i: int| 0 <= i < line.len() implies (#[trigger] line[i]) != '\r' && line[i]
        != '\n' by {
        if i >= 6 {
            assert(line[i] == said[i - 6]);
        } else {
            assert(line[i] == "data: "@[i]);
        }
    }
}

/// The data of an event is what stands behind `data: ` in its block; of two such
/// lines it is both, one behind the other.
pub proof fn law_data_of_events_is_read(one: Seq<char>, two: Seq<char>, keep_empty: bool)
    requires
        one_line(one),
        one_line(two),
        one.len() > 0,
        two.len() > 0,
        !white_space(one[0]),
        !white_space(two[0]),
    ensures
        event_data("data: "@ + one, keep_empty) == one,
        event_data(("data: "@ + one).push('\n') + ("data: "@ + two), keep_empty) == one + "\n"@
            + two,
{
    let first = "data: "@ + one;
    let second = "data: "@ + two;
    let none = Seq::<Seq<char>>::empty();
    let empty = Seq::<char>::empty();
    lemma_data_line_is_one(one);
    lemma_data_line_is_one(two);
    lemma_one_piece(first, empty);
    lemma_one_piece(second, empty);
    lemma_next_piece(first, second, empty);
    assert(empty + first =~= first);
    assert(empty + second =~= second);
    assert(seq![first] =~= none.push(first));
    assert(seq![first] + seq![second] =~= none.push(first).push(second));
    lemma_data_line(none, one, keep_empty);
    lemma_data_line(none.push(first), two, keep_empty);
    assert(data_lines(none, keep_empty) =~= Seq::<Seq<char>>::empty());
    assert(none.push(one) =~= seq![one]);
    assert(none.push(one).push(two) =~= seq![one, two]);
    reveal_with_fuel(joined, 3);
    assert(seq![one, two].drop_last() =~= seq![one]);
}

/// Event blocks end where two line endings follow each other, and not before.
pub proof fn law_blocks_end_at_an_empty_line(block: Seq<u8>, more: Seq<u8>, end_of_stream: bool)
    requires
        forall|i: int| 0 <= i < block.len() ==> (#[trigger] block[i]) != 10 && block[i] != 13,
    ensures
        first_boundary(block + seq![10u8, 10u8] + more, end_of_stream) == Some(
            (block.len() as int, (block.len() + 2) as int),
        ),
        first_boundary(block, false) is None,
{
    let whole = block + seq![10u8, 10u8] + more;
    lemma_no_boundary(block, 0);
    lemma_boundary_at(whole, 0, block.len() as int, end_of_stream);
}

proof fn lemma_no_boundary(bytes: Seq<u8>, from: int)
    requires
        0 <= from,
        forall|i: int| 0 <= i < bytes.len() ==> (#[trigger] bytes[i]) != 10 && bytes[i] != 13,
    ensures
        boundary_from(bytes, from, false) is None,
    decreases bytes.len() - from,
{
    if from < bytes.len() {
        assert(bytes[from] != 10 && bytes[from] != 13);
        lemma_no_boundary(bytes, from + 1);
    }
}

proof fn lemma_boundary_at(bytes: Seq<u8>, from: int, place: int, end_of_stream: bool)
    requires
        0 <= from <= place,
        place + 1 < bytes.len(),
        bytes[place] == 10 && bytes[place + 1] == 10,
        forall|i: int| 0 <= i < place ==> (#[trigger] bytes[i]) != 10 && bytes[i] != 13,
    ensures
        boundary_from(bytes, from, end_of_stream) == Some((place, place + 2)),
    decreases place - from,
{
    if from < place {
        assert(bytes[from] != 10 && bytes[from] != 13);
        lemma_boundary_at(bytes, from + 1, place, end_of_stream);
    }
}

} // verus!
