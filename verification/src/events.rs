//! The log of events, and when the health of a provider is written down.
use crate::collected::utf8_fault;
use crate::sse::lossy_text;
use crate::text::{
    chars_of, law_pieces_stand_between_separators, pieces, same, split, text_of, texts,
};
use vstd::prelude::*;
use vstd::string::*;
use vstd::utf8::*;

verus! {

/// How long the log may get.
pub const RELAY_EVENT_LOG_MAX_BYTES: u64 = 2_097_152;

/// How much of a log is kept when a new one begins.
pub const RELAY_EVENT_BACKUP_BYTES: u64 = 524_288;

/// How much of a log is read.
pub const RELAY_EVENT_TAIL_READ_BYTES: u64 = 524_288;

/// How long a success is not written down again, in nanoseconds.
pub const HEALTH_SUCCESS_PERSIST_INTERVAL: u128 = 15_000_000_000;

/// When a success of a provider was last written down, and whether that is still
/// going on. The time is in nanoseconds of a clock that never goes back.
#[derive(Debug, Clone, Copy, PartialEq, Eq, Structural)]
pub struct HealthSuccessCheckpoint {
    pub at: u128,
    pub writing: bool,
}

/// What a success leads to.
#[derive(Debug, Clone, Copy, PartialEq, Eq, Structural)]
pub enum SuccessStep {
    /// Nothing: another one is being written down.
    Skip,
    /// It is written down if the provider is not known to be well.
    CheckHealth(HealthSuccessCheckpoint),
    /// It is written down.
    Persist,
}

/// What a success leads to, and the checkpoint after it.
pub open spec fn success_of(current: Option<HealthSuccessCheckpoint>, now: u128) -> (
    SuccessStep,
    Option<HealthSuccessCheckpoint>,
) {
    match current {
        Some(checkpoint) if checkpoint.writing => (SuccessStep::Skip, current),
        Some(checkpoint) if now - checkpoint.at < HEALTH_SUCCESS_PERSIST_INTERVAL => (
            SuccessStep::CheckHealth(checkpoint),
            current,
        ),
        _ => (SuccessStep::Persist, Some(HealthSuccessCheckpoint { at: now, writing: true })),
    }
}

/// What a success leads to, and the checkpoint after it.
pub fn begin_health_success(current: Option<HealthSuccessCheckpoint>, now: u128) -> (step: (
    SuccessStep,
    Option<HealthSuccessCheckpoint>,
))
    ensures
        step == success_of(current, now),
{
    match current {
        Some(checkpoint) => if checkpoint.writing {
            (SuccessStep::Skip, current)
        } else if now <= checkpoint.at || now - checkpoint.at < HEALTH_SUCCESS_PERSIST_INTERVAL {
            (SuccessStep::CheckHealth(checkpoint), current)
        } else {
            (SuccessStep::Persist, Some(HealthSuccessCheckpoint { at: now, writing: true }))
        },
        None => (SuccessStep::Persist, Some(HealthSuccessCheckpoint { at: now, writing: true })),
    }
}

/// Whether a success is written down after all once the health of its provider
/// was looked up, and the checkpoint after it: not where the provider is well, or
/// another success came in between.
pub open spec fn claim_after(
    current: Option<HealthSuccessCheckpoint>,
    observed: HealthSuccessCheckpoint,
    already_healthy: bool,
    now: u128,
) -> (bool, Option<HealthSuccessCheckpoint>) {
    if already_healthy || current != Some(observed) {
        (false, current)
    } else {
        (true, Some(HealthSuccessCheckpoint { at: now, writing: true }))
    }
}

/// Whether a success is written down after all once the health of its provider
/// was looked up, and the checkpoint after it.
pub fn claim_health_success(
    current: Option<HealthSuccessCheckpoint>,
    observed: HealthSuccessCheckpoint,
    already_healthy: bool,
    now: u128,
) -> (claim: (bool, Option<HealthSuccessCheckpoint>))
    ensures
        claim == claim_after(current, observed, already_healthy, now),
{
    let unchanged = match current {
        Some(checkpoint) => checkpoint == observed,
        None => false,
    };
    if already_healthy || !unchanged {
        (false, current)
    } else {
        (true, Some(HealthSuccessCheckpoint { at: now, writing: true }))
    }
}

/// The checkpoint once a success was written down, or could not be: a claim that
/// still stands is settled or given up.
pub open spec fn settled(
    current: Option<HealthSuccessCheckpoint>,
    now: u128,
    persisted: bool,
) -> Option<HealthSuccessCheckpoint> {
    if current == Some(HealthSuccessCheckpoint { at: now, writing: true }) {
        if persisted {
            Some(HealthSuccessCheckpoint { at: now, writing: false })
        } else {
            None
        }
    } else {
        current
    }
}

/// The checkpoint once a success was written down, or could not be.
pub fn settle_health_success(
    current: Option<HealthSuccessCheckpoint>,
    now: u128,
    persisted: bool,
) -> (after: Option<HealthSuccessCheckpoint>)
    ensures
        after == settled(current, now, persisted),
{
    let claimed = match current {
        Some(checkpoint) => checkpoint == (HealthSuccessCheckpoint { at: now, writing: true }),
        None => false,
    };
    if claimed {
        if persisted {
            Some(HealthSuccessCheckpoint { at: now, writing: false })
        } else {
            None
        }
    } else {
        current
    }
}

/// While one success is written down, no other is.
pub proof fn law_one_success_is_written_at_a_time(
    current: Option<HealthSuccessCheckpoint>,
    first: u128,
    second: u128,
)
    ensures
        success_of(current, first).0 is Persist ==> success_of(
            success_of(current, first).1,
            second,
        ).0 is Skip,
{
}

/// A success that was written down is not written down again within the
/// interval while the provider is well, and at once after a failure took its
/// checkpoint away.
pub proof fn law_successes_are_coalesced(
    current: Option<HealthSuccessCheckpoint>,
    first: u128,
    second: u128,
)
    requires
        success_of(current, first).0 is Persist,
        second - first < HEALTH_SUCCESS_PERSIST_INTERVAL,
    ensures
        ({
            let after = settled(success_of(current, first).1, first, true);
            &&& success_of(after, second).0 matches SuccessStep::CheckHealth(observed)
                && !claim_after(after, observed, true, second).0
                && claim_after(after, observed, false, second).0
        }),
        success_of(None, second).0 is Persist,
{
}

/// The level of an event among diagnostics.
pub fn diagnostic_level(kind: &str) -> (level: &'static str)
    ensures
        level@ == (if kind@ == "error"@ {
            "error"@
        } else {
            "info"@
        }),
{
    if same(kind, "error") {
        "error"
    } else {
        "info"
    }
}

/// How many bytes a log takes with one more line.
pub open spec fn grown(current_bytes: u64, line_bytes: usize) -> int {
    current_bytes + line_bytes + 1
}

/// Whether a new log begins before a line of some bytes is added to one.
pub fn begins_new_log(current_bytes: u64, line_bytes: usize, max_bytes: u64) -> (begins: bool)
    ensures
        begins == (max_bytes < u64::MAX && grown(current_bytes, line_bytes) > max_bytes),
{
    current_bytes.saturating_add((line_bytes as u64).saturating_add(1)) > max_bytes
}

/// The bytes of a log after a line was added, to it or to a new one.
pub open spec fn log_after(current_bytes: u64, line_bytes: usize, max_bytes: u64) -> int {
    if max_bytes < u64::MAX && grown(current_bytes, line_bytes) > max_bytes {
        grown(0, line_bytes)
    } else {
        grown(current_bytes, line_bytes)
    }
}

/// A log never gets longer than it may, unless one line alone is.
pub proof fn law_logs_are_bounded(current_bytes: u64, line_bytes: usize, max_bytes: u64)
    requires
        line_bytes + 1 <= max_bytes < u64::MAX,
    ensures
        log_after(current_bytes, line_bytes, max_bytes) <= max_bytes,
{
}

/// Where the last bytes of a log begin.
pub fn tail_start(file_len: u64, max_bytes: u64) -> (start: u64)
    ensures
        start == (if file_len > max_bytes {
            file_len - max_bytes
        } else {
            0
        }),
{
    if file_len > max_bytes {
        file_len - max_bytes
    } else {
        0
    }
}

/// Where a newline first stands among bytes, from one place on.
pub open spec fn newline_from(bytes: Seq<u8>, from: int) -> Option<int>
    decreases bytes.len() - from,
{
    if !(0 <= from < bytes.len()) {
        None
    } else if bytes[from] == 10 {
        Some(from)
    } else {
        newline_from(bytes, from + 1)
    }
}

/// The whole lines at the end of a log: where it is not read from its start, what
/// stands before the first newline is dropped.
pub open spec fn whole_lines(bytes: Seq<u8>, start: u64) -> Seq<u8> {
    if start == 0 {
        bytes
    } else {
        match newline_from(bytes, 0) {
            Some(index) => bytes.skip(index + 1),
            None => seq![],
        }
    }
}

/// The whole lines at the end of a log.
pub fn keep_whole_lines(bytes: Vec<u8>, start: u64) -> (kept: Vec<u8>)
    ensures
        kept@ == whole_lines(bytes@, start),
{
    if start == 0 {
        return bytes;
    }
    let mut index: usize = 0;
    while index < bytes.len()
        invariant
            index <= bytes@.len(),
            start > 0,
            newline_from(bytes@, 0) == newline_from(bytes@, index as int),
        decreases bytes@.len() - index,
    {
        if bytes[index] == 10 {
            let mut head = bytes;
            return head.split_off(index + 1);
        }
        index += 1;
    }
    Vec::new()
}

proof fn lemma_newline(bytes: Seq<u8>, from: int)
    requires
        0 <= from,
    ensures
        newline_from(bytes, from) matches Some(index) ==> from <= index < bytes.len()
            && bytes[index] == 10,
    decreases bytes.len() - from,
{
    if from < bytes.len() && bytes[from] != 10 {
        lemma_newline(bytes, from + 1);
    }
}

/// What is kept of the last bytes of a log is no longer than they are, and begins
/// with a whole line: at the start of the log or behind a newline.
pub proof fn law_kept_lines_are_whole(bytes: Seq<u8>, start: u64)
    ensures
        whole_lines(bytes, start).len() <= bytes.len(),
        whole_lines(bytes, start).len() > 0 ==> ({
            let dropped = bytes.len() - whole_lines(bytes, start).len();
            &&& whole_lines(bytes, start) == bytes.skip(dropped)
            &&& start > 0 ==> dropped > 0 && bytes[dropped - 1] == 10
        }),
{
    lemma_newline(bytes, 0);
    assert(bytes.skip(0) =~= bytes);
}

/// A line without the carriage return at its end.
pub open spec fn without_return(line: Seq<char>) -> Seq<char> {
    if line.len() > 0 && line.last() == '\r' {
        line.drop_last()
    } else {
        line
    }
}

/// The lines of a text. What stands behind the last newline is a line where there
/// is anything of it.
pub open spec fn lines_of(s: Seq<char>) -> Seq<Seq<char>> {
    let parts = pieces(s, seq!['\n']);
    let ended = parts.drop_last().map_values(|line: Seq<char>| without_return(line));
    if parts.last().len() == 0 {
        ended
    } else {
        ended.push(parts.last())
    }
}

proof fn lemma_pieces_exist(s: Seq<char>, separators: Seq<char>, before: Seq<char>)
    ensures
        crate::text::pieces_after(s, separators, before).len() > 0,
    decreases s.len(),
{
    if s.len() > 0 {
        lemma_pieces_exist(s.drop_first(), separators, before.push(s[0]));
    }
}

fn drop_return(line: &String) -> (result: String)
    ensures
        result@ == without_return(line@),
{
    let chars = chars_of(line.as_str());
    if chars.len() > 0 && chars[chars.len() - 1] == '\r' {
        let result = text_of(
            vstd::slice::slice_subrange(chars.as_slice(), 0, chars.len() - 1),
        );
        assert(result@ =~= without_return(line@));
        result
    } else {
        line.clone()
    }
}

/// The lines of a text.
pub fn lines(text: &str) -> (result: Vec<String>)
    ensures
        texts(result@) == lines_of(text@),
{
    let parts = split(text, &['\n']);
    let ghost all = texts(parts@);
    proof {
        assert(['\n'] @ =~= seq!['\n']);
        lemma_pieces_exist(text@, seq!['\n'], seq![]);
    }
    assert(all.len() == parts@.len());
    let count: usize = parts.len() - 1;
    let ghost ended = all.drop_last().map_values(|line: Seq<char>| without_return(line));
    let mut result: Vec<String> = Vec::new();
    let mut index: usize = 0;
    while index < count
        invariant
            index <= count,
            count + 1 == parts@.len(),
            all == texts(parts@),
            ended == all.drop_last().map_values(|line: Seq<char>| without_return(line)),
            result@.len() == index,
            forall|i: int| 0 <= i < index ==> (#[trigger] result@[i])@ == ended[i],
        decreases count - index,
    {
        assert(all.drop_last()[index as int] == parts@[index as int]@);
        result.push(drop_return(&parts[index]));
        index += 1;
    }
    assert(texts(result@) =~= ended);
    assert(all.last() == parts@[count as int]@);
    if !parts[count].as_str().is_empty() {
        result.push(parts[count].clone());
        assert(texts(result@) =~= ended.push(all.last()));
    }
    result
}

/// The lines of a log, none where it is not UTF-8.
pub open spec fn log_lines_of(bytes: Seq<u8>) -> Seq<Seq<char>> {
    if valid_utf8(bytes) {
        lines_of(decode_utf8(bytes))
    } else {
        seq![]
    }
}

/// The lines of a log, none where it is not UTF-8.
pub fn log_lines(bytes: &[u8]) -> (result: Vec<String>)
    ensures
        texts(result@) == log_lines_of(bytes@),
{
    if utf8_fault(bytes).is_some() {
        let result: Vec<String> = Vec::new();
        assert(texts(result@) =~= seq![]);
        return result;
    }
    let text = lossy_text(bytes);
    lines(text.as_str())
}

/// The last items of a list, as many as a limit allows.
pub open spec fn last_items<T>(list: Seq<T>, limit: int) -> Seq<T> {
    if list.len() > limit {
        list.skip(list.len() - limit)
    } else {
        list
    }
}

/// The last items of a list, as many as a limit allows.
pub fn keep_last<T>(list: Vec<T>, limit: usize) -> (result: Vec<T>)
    ensures
        result@ == last_items(list@, limit as int),
{
    if list.len() > limit {
        let start: usize = list.len() - limit;
        let mut head = list;
        head.split_off(start)
    } else {
        list
    }
}

/// Of a list that is too long the last items are kept, in their order.
pub proof fn law_last_items_are_kept<T>(list: Seq<T>, limit: int, i: int)
    requires
        0 <= limit,
    ensures
        last_items(list, limit).len() == (if list.len() < limit {
            list.len() as int
        } else {
            limit
        }),
        0 <= i < last_items(list, limit).len() ==> last_items(list, limit)[i] == list[list.len()
            - last_items(list, limit).len() + i],
{
}

/// A success is written down at once where none was for a while, and one that was
/// claimed is settled by what came of it: written down, or given up so that the
/// next may be.
pub proof fn law_successes_are_written_or_given_up(now: u128, later: u128)
    requires
        now <= later,
    ensures
        success_of(None, now).0 is Persist,
        settled(success_of(None, now).1, now, true) == Some(
            HealthSuccessCheckpoint { at: now, writing: false },
        ),
        settled(success_of(None, now).1, now, false) is None,
        later - now >= 15_000_000_000 ==> success_of(
            Some(HealthSuccessCheckpoint { at: now, writing: false }),
            later,
        ).0 is Persist,
        later - now < 15_000_000_000 ==> success_of(
            Some(HealthSuccessCheckpoint { at: now, writing: false }),
            later,
        ).0 is CheckHealth,
{
}

/// A success whose provider turns out to be unwell is written down, unless another
/// came in between; one whose provider is well is not.
pub proof fn law_unwell_providers_are_written_down_again(
    observed: HealthSuccessCheckpoint,
    other: HealthSuccessCheckpoint,
    now: u128,
)
    requires
        other != observed,
    ensures
        claim_after(Some(observed), observed, false, now).0,
        !claim_after(Some(observed), observed, true, now).0,
        !claim_after(Some(other), observed, false, now).0,
        !claim_after(None, observed, false, now).0,
        claim_after(Some(observed), observed, false, now).1 == Some(
            HealthSuccessCheckpoint { at: now, writing: true },
        ),
{
}

proof fn lemma_some_piece(s: Seq<char>, separators: Seq<char>, before: Seq<char>)
    ensures
        crate::text::pieces_after(s, separators, before).len() > 0,
    decreases s.len(),
{
    if s.len() > 0 {
        lemma_some_piece(s.drop_first(), separators, before.push(s[0]));
    }
}

/// A text up to its first line feed is its first line, without a carriage return
/// at the end, and the lines of the rest follow. A text with no line feed is one
/// line, unless it is empty.
pub proof fn law_lines_end_at_line_feeds(line: Seq<char>, rest: Seq<char>)
    requires
        !line.contains('\n'),
    ensures
        lines_of(line + seq!['\n'] + rest) == seq![without_return(line)] + lines_of(rest),
        lines_of(line) == if line.len() == 0 {
            Seq::<Seq<char>>::empty()
        } else {
            seq![line]
        },
        line.len() > 0 && line.last() == '\r' ==> without_return(line) + seq!['\r'] == line,
        line.len() > 0 && line.last() != '\r' ==> without_return(line) == line,
{
    let marks = seq!['\n'];
    assert(marks[0] == '\n');
    assert forall|i: int| 0 <= i < line.len() implies !marks.contains(#[trigger] line[i]) by {
        assert(line.contains(line[i]));
    }
    law_pieces_stand_between_separators(line, '\n', rest, marks);
    lemma_some_piece(rest, marks, seq![]);
    let all = line + seq!['\n'] + rest;
    let tail = pieces(rest, marks);
    assert(pieces(all, marks).last() == tail.last());
    assert(pieces(all, marks).drop_last() =~= seq![line] + tail.drop_last());
    assert(lines_of(all) =~= seq![without_return(line)] + lines_of(rest));
    assert(lines_of(line) =~= if line.len() == 0 {
        Seq::<Seq<char>>::empty()
    } else {
        seq![line]
    });
    if line.len() > 0 && line.last() == '\r' {
        assert(without_return(line) + seq!['\r'] =~= line);
    }
}

} // verus!
