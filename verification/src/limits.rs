//! Limits on the bodies that are kept in memory.
use crate::preflight::append_bytes;
use crate::text::{begins, concat2, concat3, decimal, ends, numeral};
use vstd::prelude::*;
use vstd::string::*;
use vstd::utf8::*;

verus! {

/// The most bytes of a successful response that are kept.
pub const MAX_BUFFERED_SUCCESS_RESPONSE_BYTES: usize = 33554432;

/// The most bytes of an error response that are kept.
pub const MAX_UPSTREAM_ERROR_RESPONSE_BYTES: usize = 131072;

/// A number of bytes in words, in the largest unit that divides it.
pub open spec fn byte_limit_text(bytes: nat) -> Seq<char> {
    if bytes >= 1048576 && bytes % 1048576 == 0 {
        numeral(bytes / 1048576, 10) + " MiB"@
    } else if bytes >= 1024 && bytes % 1024 == 0 {
        numeral(bytes / 1024, 10) + " KiB"@
    } else {
        numeral(bytes, 10) + " 字节"@
    }
}

/// A number of bytes in words.
pub fn display_byte_limit(bytes: usize) -> (text: String)
    ensures
        text@ == byte_limit_text(bytes as nat),
{
    if bytes >= 1048576 && bytes % 1048576 == 0 {
        return concat2(&decimal((bytes / 1048576) as u64), " MiB");
    }
    if bytes >= 1024 && bytes % 1024 == 0 {
        return concat2(&decimal((bytes / 1024) as u64), " KiB");
    }
    concat2(&decimal(bytes as u64), " 字节")
}

/// The message about a successful response that is too large.
pub open spec fn too_large_text(max_bytes: nat) -> Seq<char> {
    "上游成功响应超过 "@ + byte_limit_text(max_bytes) + " 本地缓冲上限"@
}

/// The message about a successful response that is too large.
pub fn success_response_too_large_message(max_bytes: usize) -> (message: String)
    ensures
        message@ == too_large_text(max_bytes as nat),
{
    concat3("上游成功响应超过 ", &display_byte_limit(max_bytes), " 本地缓冲上限")
}

/// Adds a chunk to a successful response, as long as that stays within the
/// limit; else the response is left as it is, and the message says why.
pub fn append_limited_success_response_chunk_with_limit(
    body: &mut Vec<u8>,
    chunk: &[u8],
    max_bytes: usize,
) -> (result: Result<(), String>)
    ensures
        match result {
            Ok(()) => old(body)@.len() + chunk@.len() <= max_bytes && final(body)@ == old(body)@
                + chunk@,
            Err(message) => old(body)@.len() + chunk@.len() > max_bytes && final(body)@ == old(
                body,
            )@ && message@ == too_large_text(max_bytes as nat),
        },
{
    if body.len().saturating_add(chunk.len()) > max_bytes || chunk.len() > usize::MAX - body.len() {
        return Err(success_response_too_large_message(max_bytes));
    }
    append_bytes(body, chunk);
    Ok(())
}

/// Adds a chunk to a successful response, within the limit for these.
pub fn append_limited_success_response_chunk(body: &mut Vec<u8>, chunk: &[u8]) -> (result: Result<
    (),
    String,
>)
    ensures
        match result {
            Ok(()) => old(body)@.len() + chunk@.len() <= MAX_BUFFERED_SUCCESS_RESPONSE_BYTES
                && final(body)@ == old(body)@ + chunk@,
            Err(message) => old(body)@.len() + chunk@.len() > MAX_BUFFERED_SUCCESS_RESPONSE_BYTES
                && final(body)@ == old(body)@ && message@ == too_large_text(
                MAX_BUFFERED_SUCCESS_RESPONSE_BYTES as nat,
            ),
        },
{
    append_limited_success_response_chunk_with_limit(
        body,
        chunk,
        MAX_BUFFERED_SUCCESS_RESPONSE_BYTES,
    )
}

/// Whether a response announces more bytes than are kept of it.
pub fn announces_too_much(content_length: Option<u64>, max_bytes: usize) -> (too_much: bool)
    ensures
        too_much == (content_length matches Some(length) && length > max_bytes),
{
    match content_length {
        Some(length) => length > max_bytes as u64,
        None => false,
    }
}

/// The mark behind an error response that was cut.
pub open spec fn truncated_mark() -> Seq<u8> {
    encode_utf8("\n[upstream error response truncated]\n"@)
}

/// The mark in place of an error response that was left out.
pub open spec fn omitted_mark() -> Seq<u8> {
    encode_utf8("[upstream error response omitted: exceeded 128 KiB limit]"@)
}

/// How many bytes of an error response are kept before the mark.
pub open spec fn error_content_limit() -> int {
    MAX_UPSTREAM_ERROR_RESPONSE_BYTES - truncated_mark().len()
}

/// The first bytes of a body, at most so many.
pub open spec fn head(body: Seq<u8>, limit: int) -> Seq<u8> {
    if body.len() <= limit {
        body
    } else {
        body.take(limit)
    }
}

/// An error response cut to what is kept, with the mark behind it once.
pub open spec fn truncated(body: Seq<u8>) -> Seq<u8> {
    let kept = head(body, error_content_limit());
    if ends(kept, truncated_mark()) {
        kept
    } else {
        kept + truncated_mark()
    }
}

/// How long the marks are.
proof fn lemma_marks()
    ensures
        truncated_mark().len() == 37,
        omitted_mark().len() == 57,
{
    reveal_strlit("\n[upstream error response truncated]\n");
    reveal_strlit("[upstream error response omitted: exceeded 128 KiB limit]");
    is_ascii_chars_encode_utf8("\n[upstream error response truncated]\n"@);
    is_ascii_chars_encode_utf8("[upstream error response omitted: exceeded 128 KiB limit]"@);
}

fn ends_with_bytes(body: &Vec<u8>, suffix: &[u8]) -> (found: bool)
    ensures
        found == ends(body@, suffix@),
{
    if suffix.len() > body.len() {
        return false;
    }
    let total: usize = body.len();
    let from: usize = total - suffix.len();
    let ghost tail = body@.skip(from as int);
    let mut index: usize = 0;
    while index < suffix.len()
        invariant
            index <= suffix@.len(),
            from + suffix@.len() == body@.len(),
            total == body@.len(),
            tail == body@.skip(from as int),
            forall|i: int| 0 <= i < index ==> tail[i] == suffix@[i],
        decreases suffix@.len() - index,
    {
        if body[from + index] != suffix[index] {
            assert(tail[index as int] != suffix@[index as int]);
            return false;
        }
        index += 1;
    }
    assert(tail =~= suffix@);
    true
}

/// Cuts an error response to what is kept, and puts the mark behind it.
pub fn append_truncated_error_response_marker(body: &mut Vec<u8>)
    ensures
        final(body)@ == truncated(old(body)@),
{
    let marker = "\n[upstream error response truncated]\n".as_bytes();
    proof {
        lemma_marks();
    }
    let content_limit: usize = MAX_UPSTREAM_ERROR_RESPONSE_BYTES - marker.len();
    body.truncate(content_limit);
    assert(body@ =~= head(old(body)@, error_content_limit()));
    if !ends_with_bytes(body, marker) {
        append_bytes(body, marker);
    }
}

/// An error response with a chunk added as far as it is kept.
pub open spec fn with_error_chunk(body: Seq<u8>, chunk: Seq<u8>) -> (Seq<u8>, bool) {
    let room = if body.len() <= error_content_limit() {
        error_content_limit() - body.len()
    } else {
        0
    };
    if chunk.len() <= room {
        (body + chunk, false)
    } else {
        (truncated(body + chunk.take(room)), true)
    }
}

/// Adds a chunk to an error response as far as it is kept. Says whether it was
/// cut.
pub fn append_limited_error_response_chunk(body: &mut Vec<u8>, chunk: &[u8]) -> (cut: bool)
    ensures
        (final(body)@, cut) == with_error_chunk(old(body)@, chunk@),
{
    let marker = "\n[upstream error response truncated]\n".as_bytes();
    proof {
        lemma_marks();
    }
    let content_limit: usize = MAX_UPSTREAM_ERROR_RESPONSE_BYTES - marker.len();
    let room: usize = content_limit.saturating_sub(body.len());
    let prefix: usize = if room <= chunk.len() {
        room
    } else {
        chunk.len()
    };
    let part = vstd::slice::slice_subrange(chunk, 0, prefix);
    assert(part@ =~= chunk@.take(prefix as int));
    append_bytes(body, part);
    if prefix == chunk.len() {
        assert(part@ =~= chunk@);
        return false;
    }
    append_truncated_error_response_marker(body);
    true
}

/// Marks an error response whose rest is left out: by a mark in its place where
/// nothing of it has arrived, else as one that was cut.
pub fn append_omitted_error_response_marker(body: &mut Vec<u8>)
    ensures
        final(body)@ == if old(body)@.len() == 0 {
            omitted_mark()
        } else {
            truncated(old(body)@)
        },
{
    if body.len() == 0 {
        append_bytes(
            body,
            "[upstream error response omitted: exceeded 128 KiB limit]".as_bytes(),
        );
        assert(body@ =~= omitted_mark());
        return;
    }
    append_truncated_error_response_marker(body);
}

/// What is kept of an error response never exceeds its limit.
pub proof fn law_error_responses_are_bounded(body: Seq<u8>, chunk: Seq<u8>)
    requires
        body.len() <= MAX_UPSTREAM_ERROR_RESPONSE_BYTES,
    ensures
        with_error_chunk(body, chunk).0.len() <= MAX_UPSTREAM_ERROR_RESPONSE_BYTES,
        truncated(body).len() <= MAX_UPSTREAM_ERROR_RESPONSE_BYTES,
        omitted_mark().len() <= MAX_UPSTREAM_ERROR_RESPONSE_BYTES,
{
    lemma_marks();
}

/// An error response that fits is kept as it is, however it is cut into chunks.
pub proof fn law_small_error_responses_are_kept(body: Seq<u8>, chunk: Seq<u8>)
    requires
        body.len() + chunk.len() <= error_content_limit(),
    ensures
        with_error_chunk(body, chunk) == (body + chunk, false),
{
}

/// What is kept of an error response is what arrived, from its front: all of it
/// while it is small enough, and else as much as fits in front of the mark.
pub proof fn law_error_responses_keep_their_front(body: Seq<u8>, chunk: Seq<u8>)
    requires
        body.len() <= error_content_limit(),
        error_content_limit() > 0,
    ensures
        ({
            let (after, cut) = with_error_chunk(body, chunk);
            &&& !cut ==> after == body + chunk
            &&& cut <==> body.len() + chunk.len() > error_content_limit()
            &&& cut ==> begins(after, (body + chunk).take(error_content_limit())) && ends(
                after,
                truncated_mark(),
            )
        }),
{
    let limit = error_content_limit();
    let room = limit - body.len();
    if chunk.len() > room {
        let kept = body + chunk.take(room);
        assert(kept =~= (body + chunk).take(limit));
        assert(head(kept, limit) == kept);
        let after = truncated(kept);
        assert(kept.take(kept.len() as int) =~= kept);
        assert(after.take(limit) =~= kept);
        if !ends(kept, truncated_mark()) {
            assert(after.skip(after.len() - truncated_mark().len()) =~= truncated_mark());
        }
    }
}

} // verus!
