//! Request bodies that come compressed.
use crate::headers::{get_header_word, header_views, header_word, HeaderField};
use crate::text::{
    concat2, concat3, decimal, lower, lowered, numeral, pieces, same, split, texts, trim, trimmed,
};
use std::io::Cursor;
use std::io::Read;
use vstd::prelude::*;
use vstd::string::*;

verus! {

/// How long a request body may be once it is decoded.
pub const MAX_REQUEST_BODY_BYTES: usize = 209_715_200;

/// Why a request body could not be decoded.
#[derive(Debug)]
pub enum RequestBodyDecodeError {
    TooLarge { limit: usize },
    UnsupportedEncoding(String),
    InvalidEncoding { encoding: String, message: String },
}

/// What a `RequestBodyDecodeError` holds.
pub ghost enum DecodeErrorView {
    TooLarge(usize),
    UnsupportedEncoding(Seq<char>),
    InvalidEncoding(Seq<char>, Seq<char>),
}

impl View for RequestBodyDecodeError {
    type V = DecodeErrorView;

    open spec fn view(&self) -> DecodeErrorView {
        match self {
            RequestBodyDecodeError::TooLarge { limit } => DecodeErrorView::TooLarge(*limit),
            RequestBodyDecodeError::UnsupportedEncoding(encoding) =>
                DecodeErrorView::UnsupportedEncoding(encoding@),
            RequestBodyDecodeError::InvalidEncoding { encoding, message } =>
                DecodeErrorView::InvalidEncoding(encoding@, message@),
        }
    }
}

impl DecodeErrorView {
    /// The text of the error.
    pub open spec fn message(self) -> Seq<char> {
        match self {
            DecodeErrorView::TooLarge(limit) => "decompressed request body exceeds the local "@
                + numeral((limit / 1_048_576) as nat, 10) + " MiB limit"@,
            DecodeErrorView::UnsupportedEncoding(encoding) =>
                "unsupported request content-encoding: "@ + encoding,
            DecodeErrorView::InvalidEncoding(encoding, message) =>
                "failed to decode request body as "@ + encoding + (": "@ + message),
        }
    }
}

impl RequestBodyDecodeError {
    /// The text of the error.
    pub fn message_text(&self) -> (text: String)
        ensures
            text@ == self@.message(),
    {
        match self {
            RequestBodyDecodeError::TooLarge { limit } => {
                let size = decimal((*limit / 1_048_576) as u64);
                concat3("decompressed request body exceeds the local ", size.as_str(), " MiB limit")
            },
            RequestBodyDecodeError::UnsupportedEncoding(encoding) => concat2(
                "unsupported request content-encoding: ",
                encoding.as_str(),
            ),
            RequestBodyDecodeError::InvalidEncoding { encoding, message } => {
                let end = concat2(": ", message.as_str());
                concat3("failed to decode request body as ", encoding.as_str(), end.as_str())
            },
        }
    }
}

/// What a reading of bytes gives: the bytes, or the text of the error.
pub open spec fn reading_view(reading: Result<Vec<u8>, String>) -> Result<Seq<u8>, Seq<char>> {
    match reading {
        Ok(bytes) => Ok(bytes@),
        Err(message) => Err(message@),
    }
}

/// What `gunzip` reads.
pub uninterp spec fn gunzipped(body: Seq<u8>, most: u64) -> Result<Seq<u8>, Seq<char>>;

/// What `inflate_zlib` reads.
pub uninterp spec fn zlib_inflated(body: Seq<u8>, most: u64) -> Result<Seq<u8>, Seq<char>>;

/// What `inflate_raw` reads.
pub uninterp spec fn raw_inflated(body: Seq<u8>, most: u64) -> Result<Seq<u8>, Seq<char>>;

/// What `read_brotli` reads.
pub uninterp spec fn brotli_decoded(body: Seq<u8>, most: u64) -> Result<Seq<u8>, Seq<char>>;

/// What `read_zstd` reads.
pub uninterp spec fn zstd_decoded(body: Seq<u8>, most: u64) -> Result<Seq<u8>, Seq<char>>;

/// `flate2::read::GzDecoder` reads one gzip member, up to a number of bytes. What
/// comes of it is a function of the body and that number.
#[verifier::external_body]
fn gunzip(body: &[u8], most: u64) -> (reading: Result<Vec<u8>, String>)
    ensures
        reading_view(reading) == gunzipped(body@, most),
        reading matches Ok(bytes) ==> bytes@.len() <= most,
{
    let mut output = Vec::new();
    match flate2::read::GzDecoder::new(Cursor::new(body)).take(most).read_to_end(&mut output) {
        Ok(_) => Ok(output),
        Err(error) => Err(error.to_string()),
    }
}

/// `flate2::read::ZlibDecoder` reads one zlib stream, up to a number of bytes.
/// What comes of it is a function of the body and that number.
#[verifier::external_body]
fn inflate_zlib(body: &[u8], most: u64) -> (reading: Result<Vec<u8>, String>)
    ensures
        reading_view(reading) == zlib_inflated(body@, most),
        reading matches Ok(bytes) ==> bytes@.len() <= most,
{
    let mut output = Vec::new();
    match flate2::read::ZlibDecoder::new(Cursor::new(body)).take(most).read_to_end(&mut output) {
        Ok(_) => Ok(output),
        Err(error) => Err(error.to_string()),
    }
}

/// `flate2::read::DeflateDecoder` reads one deflate stream, up to a number of
/// bytes. What comes of it is a function of the body and that number.
#[verifier::external_body]
fn inflate_raw(body: &[u8], most: u64) -> (reading: Result<Vec<u8>, String>)
    ensures
        reading_view(reading) == raw_inflated(body@, most),
        reading matches Ok(bytes) ==> bytes@.len() <= most,
{
    let mut output = Vec::new();
    match flate2::read::DeflateDecoder::new(Cursor::new(body)).take(most).read_to_end(&mut output) {
        Ok(_) => Ok(output),
        Err(error) => Err(error.to_string()),
    }
}

/// `brotli::Decompressor` reads one Brotli stream, up to a number of bytes. What
/// comes of it is a function of the body and that number.
#[verifier::external_body]
fn read_brotli(body: &[u8], most: u64) -> (reading: Result<Vec<u8>, String>)
    ensures
        reading_view(reading) == brotli_decoded(body@, most),
        reading matches Ok(bytes) ==> bytes@.len() <= most,
{
    let mut output = Vec::new();
    match brotli::Decompressor::new(Cursor::new(body), 4096).take(most).read_to_end(&mut output) {
        Ok(_) => Ok(output),
        Err(error) => Err(error.to_string()),
    }
}

/// `zstd::stream::read::Decoder` reads Zstandard frames, up to a number of
/// bytes. What comes of it is a function of the body and that number.
#[verifier::external_body]
fn read_zstd(body: &[u8], most: u64) -> (reading: Result<Vec<u8>, String>)
    ensures
        reading_view(reading) == zstd_decoded(body@, most),
        reading matches Ok(bytes) ==> bytes@.len() <= most,
{
    let mut output = Vec::new();
    let decoder = match zstd::stream::read::Decoder::new(Cursor::new(body)) {
        Ok(decoder) => decoder,
        Err(error) => return Err(error.to_string()),
    };
    match decoder.take(most).read_to_end(&mut output) {
        Ok(_) => Ok(output),
        Err(error) => Err(error.to_string()),
    }
}

/// A decoded body, or why there is none.
pub open spec fn decoded_view(result: Result<Vec<u8>, RequestBodyDecodeError>) -> Result<
    Seq<u8>,
    DecodeErrorView,
> {
    match result {
        Ok(bytes) => Ok(bytes@),
        Err(error) => Err(error@),
    }
}

/// How much is read of a body to tell whether it is too long.
pub open spec fn read_limit(limit: usize) -> u64 {
    if limit == usize::MAX {
        limit as u64
    } else {
        (limit + 1) as u64
    }
}

/// Bytes as a body that may not be longer than a limit.
pub open spec fn bounded(bytes: Seq<u8>, limit: usize) -> Result<Seq<u8>, DecodeErrorView> {
    if bytes.len() > limit {
        Err(DecodeErrorView::TooLarge(limit))
    } else {
        Ok(bytes)
    }
}

/// What a reading comes to as a body that may not be longer than a limit.
pub open spec fn bounded_reading(
    reading: Result<Seq<u8>, Seq<char>>,
    encoding: Seq<char>,
    limit: usize,
) -> Result<Seq<u8>, DecodeErrorView> {
    match reading {
        Ok(bytes) => bounded(bytes, limit),
        Err(message) => Err(DecodeErrorView::InvalidEncoding(encoding, message)),
    }
}

/// Bytes as a body that may not be longer than a limit.
pub fn bounded_bytes(body: &[u8], decoded_limit: usize) -> (result: Result<
    Vec<u8>,
    RequestBodyDecodeError,
>)
    ensures
        decoded_view(result) == bounded(body@, decoded_limit),
{
    if body.len() > decoded_limit {
        return Err(RequestBodyDecodeError::TooLarge { limit: decoded_limit });
    }
    let bytes = vstd::slice::slice_to_vec(body);
    assert(bytes@ =~= body@);
    Ok(bytes)
}

/// What a reading comes to as a body that may not be longer than a limit.
pub fn read_bounded(
    reading: Result<Vec<u8>, String>,
    encoding: &str,
    decoded_limit: usize,
) -> (result: Result<Vec<u8>, RequestBodyDecodeError>)
    ensures
        decoded_view(result) == bounded_reading(reading_view(reading), encoding@, decoded_limit),
{
    match reading {
        Ok(output) => if output.len() > decoded_limit {
            Err(RequestBodyDecodeError::TooLarge { limit: decoded_limit })
        } else {
            Ok(output)
        },
        Err(message) => Err(
            RequestBodyDecodeError::InvalidEncoding { encoding: encoding.to_string(), message },
        ),
    }
}

/// What a deflated body comes to, given its readings with and without a zlib
/// header: the second counts where the first is not valid.
pub open spec fn deflate_choice(
    zlib: Result<Seq<u8>, Seq<char>>,
    raw: Result<Seq<u8>, Seq<char>>,
    limit: usize,
) -> Result<Seq<u8>, DecodeErrorView> {
    match zlib {
        Ok(bytes) => bounded(bytes, limit),
        Err(_) => bounded_reading(raw, "deflate"@, limit),
    }
}

/// What a deflated body comes to.
pub fn decode_deflate(body: &[u8], decoded_limit: usize) -> (result: Result<
    Vec<u8>,
    RequestBodyDecodeError,
>)
    ensures
        decoded_view(result) == deflate_choice(
            zlib_inflated(body@, read_limit(decoded_limit)),
            raw_inflated(body@, read_limit(decoded_limit)),
            decoded_limit,
        ),
{
    let most: u64 = most_of(decoded_limit);
    match read_bounded(inflate_zlib(body, most), "deflate", decoded_limit) {
        Ok(decoded) => Ok(decoded),
        Err(RequestBodyDecodeError::InvalidEncoding { .. }) => read_bounded(
            inflate_raw(body, most),
            "deflate",
            decoded_limit,
        ),
        Err(error) => Err(error),
    }
}

fn most_of(limit: usize) -> (most: u64)
    ensures
        most == read_limit(limit),
{
    if limit == usize::MAX {
        limit as u64
    } else {
        (limit + 1) as u64
    }
}

/// How a body was encoded.
#[derive(Debug, Clone, Copy, PartialEq, Eq, Structural)]
pub enum BodyEncoding {
    Identity,
    Gzip,
    Deflate,
    Brotli,
    Zstd,
    Unknown,
}

/// The encoding that a name stands for, whatever its case.
pub open spec fn encoding_named(name: Seq<char>) -> BodyEncoding {
    let name = lower(name);
    if name == "identity"@ {
        BodyEncoding::Identity
    } else if name == "gzip"@ || name == "x-gzip"@ {
        BodyEncoding::Gzip
    } else if name == "deflate"@ {
        BodyEncoding::Deflate
    } else if name == "br"@ {
        BodyEncoding::Brotli
    } else if name == "zstd"@ || name == "zst"@ {
        BodyEncoding::Zstd
    } else {
        BodyEncoding::Unknown
    }
}

/// The encoding that a name stands for.
pub fn body_encoding(name: &str) -> (encoding: BodyEncoding)
    ensures
        encoding == encoding_named(name@),
{
    let name = lowered(name);
    let name = name.as_str();
    if same(name, "identity") {
        BodyEncoding::Identity
    } else if same(name, "gzip") || same(name, "x-gzip") {
        BodyEncoding::Gzip
    } else if same(name, "deflate") {
        BodyEncoding::Deflate
    } else if same(name, "br") {
        BodyEncoding::Brotli
    } else if same(name, "zstd") || same(name, "zst") {
        BodyEncoding::Zstd
    } else {
        BodyEncoding::Unknown
    }
}

/// What a body comes to once an encoding of it is undone.
pub open spec fn decoded_one(
    encoding: Seq<char>,
    body: Seq<u8>,
    limit: usize,
) -> Result<Seq<u8>, DecodeErrorView> {
    let most = read_limit(limit);
    match encoding_named(encoding) {
        BodyEncoding::Identity => bounded(body, limit),
        BodyEncoding::Gzip => bounded_reading(gunzipped(body, most), encoding, limit),
        BodyEncoding::Deflate => deflate_choice(
            zlib_inflated(body, most),
            raw_inflated(body, most),
            limit,
        ),
        BodyEncoding::Brotli => bounded_reading(brotli_decoded(body, most), encoding, limit),
        BodyEncoding::Zstd => bounded_reading(zstd_decoded(body, most), encoding, limit),
        BodyEncoding::Unknown => Err(DecodeErrorView::UnsupportedEncoding(encoding)),
    }
}

/// Undoes one encoding of a body.
pub fn decode_one(encoding: &str, body: &[u8], decoded_limit: usize) -> (result: Result<
    Vec<u8>,
    RequestBodyDecodeError,
>)
    ensures
        decoded_view(result) == decoded_one(encoding@, body@, decoded_limit),
        result matches Ok(bytes) ==> bytes@.len() <= decoded_limit,
{
    let most: u64 = most_of(decoded_limit);
    match body_encoding(encoding) {
        BodyEncoding::Identity => bounded_bytes(body, decoded_limit),
        BodyEncoding::Gzip => read_bounded(gunzip(body, most), encoding, decoded_limit),
        BodyEncoding::Deflate => decode_deflate(body, decoded_limit),
        BodyEncoding::Brotli => read_bounded(read_brotli(body, most), encoding, decoded_limit),
        BodyEncoding::Zstd => read_bounded(read_zstd(body, most), encoding, decoded_limit),
        BodyEncoding::Unknown => Err(
            RequestBodyDecodeError::UnsupportedEncoding(encoding.to_string()),
        ),
    }
}

/// What a body comes to once its encodings are undone, the last first.
pub open spec fn decoded_all(
    encodings: Seq<Seq<char>>,
    body: Seq<u8>,
    limit: usize,
) -> Result<Seq<u8>, DecodeErrorView>
    decreases encodings.len(),
{
    if encodings.len() == 0 {
        Ok(body)
    } else {
        match decoded_one(encodings.last(), body, limit) {
            Ok(bytes) => decoded_all(encodings.drop_last(), bytes, limit),
            Err(error) => Err(error),
        }
    }
}

/// A body of which any encoding was undone is within the limit.
pub proof fn law_decoded_bodies_are_bounded(
    encodings: Seq<Seq<char>>,
    body: Seq<u8>,
    limit: usize,
)
    requires
        encodings.len() > 0,
    ensures
        decoded_all(encodings, body, limit) matches Ok(bytes) ==> bytes.len() <= limit,
    decreases encodings.len(),
{
    if let Ok(bytes) = decoded_one(encodings.last(), body, limit) {
        if encodings.len() > 1 {
            law_decoded_bodies_are_bounded(encodings.drop_last(), bytes, limit);
        }
    }
}

/// The trimmed words of a list that are not blank.
pub open spec fn words(list: Seq<Seq<char>>) -> Seq<Seq<char>>
    decreases list.len(),
{
    if list.len() == 0 {
        seq![]
    } else if trim(list.last()).len() == 0 {
        words(list.drop_last())
    } else {
        words(list.drop_last()).push(trim(list.last()))
    }
}

/// The trimmed words between commas that are not blank.
pub fn comma_words(text: &str) -> (result: Vec<String>)
    ensures
        texts(result@) == words(pieces(text@, seq![','])),
{
    let parts = split(text, &[',']);
    let ghost all = texts(parts@);
    assert([','] @ =~= seq![',']);
    let mut result: Vec<String> = Vec::new();
    let mut index: usize = 0;
    assert(texts(result@) =~= words(all.take(0)));
    while index < parts.len()
        invariant
            index <= parts@.len(),
            all == texts(parts@),
            texts(result@) == words(all.take(index as int)),
        decreases parts@.len() - index,
    {
        let word = trimmed(parts[index].as_str());
        let ghost before = texts(result@);
        assert(all.take(index + 1).drop_last() =~= all.take(index as int));
        assert(all.take(index + 1).last() == parts@[index as int]@);
        if !word.as_str().is_empty() {
            let ghost view = word@;
            result.push(word);
            assert(texts(result@) =~= before.push(view));
        }
        index += 1;
    }
    assert(all.take(index as int) =~= all);
    result
}

/// Whether a header speaks of a body as it was sent.
pub open spec fn describes_body(name: Seq<char>) -> bool {
    name == "content-encoding"@ || name == "content-length"@ || name == "transfer-encoding"@
}

/// Headers without those that speak of a body as it was sent.
pub open spec fn without_body_headers(
    headers: Seq<(Seq<char>, Option<Seq<char>>)>,
) -> Seq<(Seq<char>, Option<Seq<char>>)>
    decreases headers.len(),
{
    if headers.len() == 0 {
        headers
    } else {
        let before = without_body_headers(headers.drop_last());
        if describes_body(headers.last().0) {
            before
        } else {
            before.push(headers.last())
        }
    }
}

fn drop_body_headers(headers: &mut Vec<HeaderField>)
    ensures
        header_views(final(headers)@) == without_body_headers(header_views(old(headers)@)),
{
    let ghost all = header_views(headers@);
    let mut rest: Vec<HeaderField> = Vec::new();
    core::mem::swap(headers, &mut rest);
    let ghost mut done: int = 0;
    assert(header_views(headers@) =~= without_body_headers(all.take(0)));
    assert(all.skip(0) =~= all);
    while rest.len() > 0
        invariant
            0 <= done <= all.len(),
            header_views(rest@) == all.skip(done),
            header_views(headers@) == without_body_headers(all.take(done)),
        decreases rest@.len(),
    {
        let ghost before = header_views(headers@);
        assert(header_views(rest@).len() == rest@.len());
        assert(header_views(rest@)[0] == rest@[0]@);
        assert(all.skip(done)[0] == all[done]);
        let field = rest.remove(0);
        let ghost view = field@;
        proof {
            assert(all.take(done + 1).drop_last() =~= all.take(done));
            assert(all.take(done + 1).last() == view);
            assert(header_views(rest@) =~= all.skip(done).skip(1));
            assert(all.skip(done).skip(1) =~= all.skip(done + 1));
            done = done + 1;
        }
        let name = field.name.as_str();
        if !(same(name, "content-encoding") || same(name, "content-length") || same(
            name,
            "transfer-encoding",
        )) {
            headers.push(field);
            assert(header_views(headers@) =~= before.push(view));
        }
    }
    assert(all.take(done) =~= all);
}

/// A request body as it was before it was encoded for the way, where its headers
/// say that it was; the headers that speak of the encoded body are dropped. With
/// an error the headers stay.
pub fn decode_request_body(
    headers: &mut Vec<HeaderField>,
    body: Vec<u8>,
    decoded_limit: usize,
) -> (result: Result<Vec<u8>, RequestBodyDecodeError>)
    ensures
        decoded_view(result) == (match header_word(
            header_views(old(headers)@),
            "content-encoding"@,
        ) {
            Some(encoding) => decoded_all(
                words(pieces(encoding, seq![','])),
                body@,
                decoded_limit,
            ),
            None => Ok(body@),
        }),
        header_views(final(headers)@) == (if result is Ok && header_word(
            header_views(old(headers)@),
            "content-encoding"@,
        ) is Some {
            without_body_headers(header_views(old(headers)@))
        } else {
            header_views(old(headers)@)
        }),
{
    let encoding = match get_header_word(headers, "content-encoding") {
        Some(encoding) => encoding,
        None => {
            return Ok(body);
        },
    };
    let mut encodings = comma_words(encoding.as_str());
    let mut decoded = body;
    let ghost goal = decoded_all(texts(encodings@), body@, decoded_limit);
    while encodings.len() > 0
        invariant
            goal == decoded_all(texts(encodings@), decoded@, decoded_limit),
            *headers == *old(headers),
            header_word(header_views(old(headers)@), "content-encoding"@) is Some,
            goal == decoded_all(
                words(
                    pieces(
                        header_word(header_views(old(headers)@), "content-encoding"@)->Some_0,
                        seq![','],
                    ),
                ),
                body@,
                decoded_limit,
            ),
        decreases encodings@.len(),
    {
        let ghost all = texts(encodings@);
        let last: Option<String> = encodings.pop();
        if let Some(name) = last {
            assert(texts(encodings@) =~= all.drop_last());
            assert(all.last() == name@);
            match decode_one(name.as_str(), decoded.as_slice(), decoded_limit) {
                Ok(bytes) => {
                    decoded = bytes;
                },
                Err(error) => {
                    return Err(error);
                },
            }
        }
    }
    drop_body_headers(headers);
    Ok(decoded)
}

/// A decoded request no longer carries headers that speak of its encoded body.
pub proof fn law_decoded_requests_lose_body_headers(
    headers: Seq<(Seq<char>, Option<Seq<char>>)>,
    index: int,
)
    requires
        0 <= index < without_body_headers(headers).len(),
    ensures
        !describes_body(without_body_headers(headers)[index].0),
        headers.contains(without_body_headers(headers)[index]),
    decreases headers.len(),
{
    if headers.len() > 0 {
        let front = headers.drop_last();
        let before = without_body_headers(front);
        if index < before.len() {
            law_decoded_requests_lose_body_headers(front, index);
            let i = choose|i: int| 0 <= i < front.len() && front[i] == before[index];
            assert(headers[i] == before[index]);
        } else {
            assert(headers[headers.len() - 1] == without_body_headers(headers)[index]);
        }
    }
}

/// A body is decoded by what its encoding names, whatever its case: what the
/// decoder gives is the body where it is within the limit, and one that is longer
/// is refused. A body that is not encoded stays as it is.
pub proof fn law_encodings_are_undone_by_name(
    encoding: Seq<char>,
    body: Seq<u8>,
    limit: usize,
    bytes: Seq<u8>,
)
    ensures
        lower(encoding) == "identity"@ && body.len() <= limit ==> decoded_one(encoding, body, limit)
            == Ok::<Seq<u8>, DecodeErrorView>(body),
        (lower(encoding) == "gzip"@ || lower(encoding) == "x-gzip"@) && gunzipped(
            body,
            read_limit(limit),
        ) == Ok::<Seq<u8>, Seq<char>>(bytes) ==> decoded_one(encoding, body, limit) == (
        if bytes.len() <= limit {
            Ok::<Seq<u8>, DecodeErrorView>(bytes)
        } else {
            Err(DecodeErrorView::TooLarge(limit))
        }),
        lower(encoding) == "br"@ && brotli_decoded(body, read_limit(limit)) == Ok::<
            Seq<u8>,
            Seq<char>,
        >(bytes) && bytes.len() <= limit ==> decoded_one(encoding, body, limit) == Ok::<
            Seq<u8>,
            DecodeErrorView,
        >(bytes),
        (lower(encoding) == "zstd"@ || lower(encoding) == "zst"@) && zstd_decoded(
            body,
            read_limit(limit),
        ) == Ok::<Seq<u8>, Seq<char>>(bytes) && bytes.len() <= limit ==> decoded_one(
            encoding,
            body,
            limit,
        ) == Ok::<Seq<u8>, DecodeErrorView>(bytes),
        lower(encoding) == "deflate"@ && zlib_inflated(body, read_limit(limit)) == Ok::<
            Seq<u8>,
            Seq<char>,
        >(bytes) && bytes.len() <= limit ==> decoded_one(encoding, body, limit) == Ok::<
            Seq<u8>,
            DecodeErrorView,
        >(bytes),
        lower(encoding) == "compress"@ ==> decoded_one(encoding, body, limit) == Err::<
            Seq<u8>,
            DecodeErrorView,
        >(DecodeErrorView::UnsupportedEncoding(encoding)),
{
    reveal_strlit("identity");
    reveal_strlit("gzip");
    reveal_strlit("x-gzip");
    reveal_strlit("deflate");
    reveal_strlit("br");
    reveal_strlit("zstd");
    reveal_strlit("zst");
    reveal_strlit("compress");
    assert("identity"@.len() == 8);
    assert("gzip"@.len() == 4);
    assert("x-gzip"@.len() == 6);
    assert("deflate"@.len() == 7);
    assert("br"@.len() == 2);
    assert("zstd"@.len() == 4);
    assert("zst"@.len() == 3);
    assert("compress"@.len() == 8);
    assert("identity"@[0] != "compress"@[0]);
    assert("gzip"@[0] != "zstd"@[0]);
}

/// Encodings are undone in the opposite order of that in which they were put on,
/// and one that fails ends it.
pub proof fn law_encodings_are_undone_in_reverse(
    first: Seq<char>,
    second: Seq<char>,
    body: Seq<u8>,
    limit: usize,
)
    ensures
        decoded_all(seq![], body, limit) == Ok::<Seq<u8>, DecodeErrorView>(body),
        decoded_all(seq![first, second], body, limit) == (match decoded_one(second, body, limit) {
            Ok(inner) => decoded_one(first, inner, limit),
            Err(error) => Err(error),
        }),
{
    let both = seq![first, second];
    assert(both.drop_last() =~= seq![first]);
    assert(seq![first].drop_last() =~= Seq::<Seq<char>>::empty());
    reveal_with_fuel(decoded_all, 3);
}

/// A list keeps each of its words, without the blanks around it; what is blank is
/// no word.
pub proof fn law_lists_keep_their_words(list: Seq<Seq<char>>, i: int)
    requires
        0 <= i < list.len(),
    ensures
        trim(list[i]).len() > 0 ==> words(list).contains(trim(list[i])),
        !words(list).contains(seq![]),
    decreases list.len(),
{
    let before = list.drop_last();
    if before.len() > 0 {
        law_lists_keep_their_words(before, if i < before.len() { i } else { 0 });
    } else {
        assert(words(before) =~= seq![]);
    }
    if trim(list.last()).len() > 0 {
        let all = words(before).push(trim(list.last()));
        assert(all.last() == trim(list.last()));
        assert(all.contains(trim(list.last())));
        if i < before.len() && trim(list[i]).len() > 0 {
            let k = words(before).index_of(trim(list[i]));
            assert(words(before).contains(trim(before[i])));
            assert(all[k] == words(before)[k]);
        }
        assert forall|j: int| 0 <= j < all.len() implies #[trigger] all[j] != Seq::<
            char,
        >::empty() by {
            if j < words(before).len() {
                assert(words(before).contains(words(before)[j]));
            }
        }
    }
}

} // verus!
