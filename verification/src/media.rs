//! Images in the output of tools.
//!
//! A chat completion takes the output of a tool as text only. Images are taken
//! out of it, to be attached as a message of their own, and what is left of
//! large payloads is dropped.
use crate::failure::is_text;
use crate::json::{
    array, at, either, field_views, get_at, lemma_entry_field, obj, object, parse_json, parsed_json,
    render_json,
    rendered, seen, text, text_at, text_in, views, Json, JsonView,
};
use crate::text::{
    begins, byte_len, chars_of, concat2, concat3, decimal, ends, ends_with, lower, lowered, numeral,
    parted, same, split_once, starts_with, string_view, trim, trimmed,
};
use crate::tools::first_of;
use vstd::prelude::*;
use vstd::string::*;
use vstd::utf8::*;

verus! {

/// From how many bytes on a text that is an image is taken out.
pub const WHOLE_IMAGE_DATA_URL_MIN_BYTES: usize = 8192;

/// From how many bytes on a text that looks like base64 is dropped.
pub const BASE64ISH_MIN_BYTES: usize = 16384;

/// How deep images are looked for.
pub const MAX_TOOL_MEDIA_DEPTH: usize = 32;

/// The text of a scalar value.
pub open spec fn scalar_text(value: JsonView) -> Option<Seq<char>> {
    match value {
        JsonView::Text(text) => Some(text),
        JsonView::Number(_) => Some(rendered(value)),
        JsonView::Bool(flag) => Some(
            if flag {
                "true"@
            } else {
                "false"@
            },
        ),
        _ => None,
    }
}

/// The text of a scalar value.
pub fn value_text(value: &Json) -> (result: Option<String>)
    ensures
        string_view(result) == scalar_text(value@),
{
    match value {
        Json::Text(text) => Some(text.clone()),
        Json::Number(_) => Some(render_json(value)),
        Json::Bool(flag) => if *flag {
            Some("true".to_owned())
        } else {
            Some("false".to_owned())
        },
        _ => None,
    }
}

/// A value as text: a scalar value as it reads, any other as JSON.
pub open spec fn plain_text(value: JsonView) -> Seq<char> {
    match scalar_text(value) {
        Some(text) => text,
        None => rendered(value),
    }
}

/// A value as text.
pub fn json_value_string(value: &Json) -> (result: String)
    ensures
        result@ == plain_text(value@),
{
    match value_text(value) {
        Some(result) => result,
        None => render_json(value),
    }
}

/// The arguments of a call as JSON text; an empty object where there are none.
pub open spec fn argument_text(value: Option<JsonView>) -> Seq<char> {
    match value {
        Some(JsonView::Text(arguments)) => arguments,
        Some(value) => rendered(value),
        None => "{}"@,
    }
}

/// The arguments of a call as JSON text.
pub fn json_argument_string(value: Option<&Json>) -> (result: String)
    ensures
        result@ == argument_text(seen(value)),
{
    match value {
        Some(value) => match value.as_text() {
            Some(arguments) => arguments.to_owned(),
            None => render_json(value),
        },
        None => "{}".to_owned(),
    }
}

/// Whether a text is the base64 data URL of an image.
pub open spec fn image_data_url(value: Seq<char>) -> bool {
    parted(value, ',') matches Some((header, _)) && begins(lower(header), "data:image/"@) && ends(
        lower(header),
        ";base64"@,
    )
}

/// Whether a text is the base64 data URL of an image.
pub fn is_image_base64_data_url(value: &str) -> (found: bool)
    ensures
        found == image_data_url(value@),
{
    match split_once(value, ',') {
        Some((header, _)) => {
            let header = lowered(&header);
            starts_with(&header, "data:image/") && ends_with(&header, ";base64")
        },
        None => false,
    }
}

/// Whether a chat completion can fetch an image from a URL.
pub open spec fn supported_image_url(value: Seq<char>) -> bool {
    image_data_url(value) || begins(lower(value), "https://"@) || begins(lower(value), "http://"@)
}

/// Whether a chat completion can fetch an image from a URL.
pub fn supported_tool_image_url(value: &str) -> (supported: bool)
    ensures
        supported == supported_image_url(value@),
{
    let lower_value = lowered(value);
    is_image_base64_data_url(value) || starts_with(&lower_value, "https://") || starts_with(
        &lower_value,
        "http://",
    )
}

/// An image as a part of a chat message.
pub open spec fn image_part(url: Seq<char>, detail: Option<JsonView>) -> JsonView {
    let image = obj().entry("url"@, JsonView::Text(url));
    obj().entry("type"@, JsonView::Text("image_url"@)).entry(
        "image_url"@,
        match detail {
            Some(detail) => image.entry("detail"@, detail),
            None => image,
        },
    )
}

/// An image as a part of a chat message.
pub fn chat_image_part(url: &str, detail: Option<&Json>) -> (part: Json)
    ensures
        part@ == image_part(url@, seen(detail)),
{
    let image = object().entry("url", text(url));
    let image = match detail {
        Some(detail) => image.entry("detail", detail.copy()),
        None => image,
    };
    object().entry("type", text("image_url")).entry("image_url", image)
}

/// The URL in a value that is a URL or holds one, with the detail beside it.
pub open spec fn url_in(value: JsonView) -> Option<(Seq<char>, Option<JsonView>)> {
    match value {
        JsonView::Text(url) => if trim(url).len() > 0 {
            Some((trim(url), None))
        } else {
            None
        },
        JsonView::Object(_) => match value.get_text("url"@) {
            Some(url) => if trim(url).len() > 0 {
                Some((trim(url), value.get("detail"@)))
            } else {
                None
            },
            None => None,
        },
        _ => None,
    }
}

/// What a URL with its detail says.
pub open spec fn url_view(found: Option<(String, Option<&Json>)>) -> Option<
    (Seq<char>, Option<JsonView>),
> {
    match found {
        Some((url, detail)) => Some((url@, seen(detail))),
        None => None,
    }
}

/// The URL in a value that is a URL or holds one, with the detail beside it.
pub fn image_url_value<'a>(value: &'a Json) -> (found: Option<(String, Option<&'a Json>)>)
    ensures
        url_view(found) == url_in(value@),
{
    match value.as_text() {
        Some(url) => {
            let url = trimmed(url);
            if url.as_str().is_empty() {
                None
            } else {
                Some((url, None))
            }
        },
        None => match value.get_text("url") {
            Some(url) => {
                let url = trimmed(url);
                if url.as_str().is_empty() {
                    None
                } else {
                    Some((url, value.get("detail")))
                }
            },
            None => None,
        },
    }
}

/// The data URL of an image: the data itself where it is one, else built from
/// the type and the base64 data.
pub open spec fn data_url(mime_type: Seq<char>, data: Seq<char>) -> Seq<char> {
    if image_data_url(data) {
        data
    } else {
        "data:"@ + mime_type + ";base64,"@ + data
    }
}

fn image_data(mime_type: &str, data: &str) -> (url: String)
    ensures
        url@ == data_url(mime_type@, data@),
{
    if is_image_base64_data_url(data) {
        data.to_owned()
    } else {
        concat2(&concat3("data:", mime_type, ";base64,"), data)
    }
}

/// Whether a media type is that of an image.
pub open spec fn image_type(mime_type: Seq<char>) -> bool {
    begins(lower(mime_type), "image/"@)
}

/// The image of an object of type `image` that holds its data.
pub open spec fn inline_image(value: JsonView) -> Option<JsonView> {
    match (
        text_in(either(value.get("mimeType"@), value.get("mime_type"@))),
        value.get_text("data"@),
    ) {
        (Some(mime_type), Some(data)) => if image_type(mime_type) {
            Some(image_part(data_url(mime_type, data), value.get("detail"@)))
        } else {
            None
        },
        _ => None,
    }
}

/// The media type of the source of an image.
pub open spec fn source_type(source: JsonView) -> Seq<char> {
    match text_in(
        either(
            either(source.get("media_type"@), source.get("mime_type"@)),
            source.get("mimeType"@),
        ),
    ) {
        Some(mime_type) => mime_type,
        None => "image/png"@,
    }
}

/// The image of an object of type `image`.
pub open spec fn typed_image(value: JsonView) -> Option<JsonView> {
    match value.get("source"@) {
        Some(JsonView::Object(fields)) => {
            let source = JsonView::Object(fields);
            if !image_type(source_type(source)) {
                None
            } else if source.get_text("url"@) matches Some(url) && supported_image_url(url) {
                Some(image_part(source.get_text("url"@)->0, value.get("detail"@)))
            } else {
                match source.get_text("data"@) {
                    Some(data) => Some(
                        image_part(data_url(source_type(source), data), value.get("detail"@)),
                    ),
                    None => inline_image(value),
                }
            }
        },
        _ => inline_image(value),
    }
}

fn inline_tool_image(value: &Json) -> (part: Option<Json>)
    ensures
        part_view(part) == inline_image(value@),
{
    let mime_type = match text_at(first_of(value.get("mimeType"), value.get("mime_type"))) {
        Some(mime_type) => mime_type,
        None => {
            return None;
        },
    };
    if !starts_with(&lowered(mime_type), "image/") {
        return None;
    }
    match value.get_text("data") {
        Some(data) => Some(chat_image_part(&image_data(mime_type, data), value.get("detail"))),
        None => None,
    }
}

/// What a part that may be missing holds.
pub open spec fn part_view(part: Option<Json>) -> Option<JsonView> {
    match part {
        Some(part) => Some(part@),
        None => None,
    }
}

/// The image of an object of type `image`.
pub fn typed_tool_image(value: &Json) -> (part: Option<Json>)
    ensures
        part_view(part) == typed_image(value@),
{
    if let Some(source) = value.get("source") {
        if source.is_object() {
            let named = text_at(
                first_of(
                    first_of(source.get("media_type"), source.get("mime_type")),
                    source.get("mimeType"),
                ),
            );
            let mime_type = match named {
                Some(mime_type) => mime_type,
                None => "image/png",
            };
            if !starts_with(&lowered(mime_type), "image/") {
                return None;
            }
            if let Some(url) = source.get_text("url") {
                if supported_tool_image_url(url) {
                    return Some(chat_image_part(url, value.get("detail")));
                }
            }
            if let Some(data) = source.get_text("data") {
                return Some(chat_image_part(&image_data(mime_type, data), value.get("detail")));
            }
        }
    }
    inline_tool_image(value)
}

/// The image that an object is.
pub open spec fn structured_image(value: JsonView) -> Option<JsonView> {
    let kind = value.get_text("type"@);
    let found = match either(value.get("image_url"@), value.get("imageUrl"@)) {
        Some(image_url) => url_in(image_url),
        None => None,
    };
    if kind == Some("input_image"@) || kind == Some("output_image"@) || kind == Some("image_url"@) {
        match found {
            Some((url, nested)) => if supported_image_url(url) {
                Some(image_part(url, either(value.get("detail"@), nested)))
            } else {
                None
            },
            None => None,
        }
    } else if kind == Some("image"@) {
        typed_image(value)
    } else if kind is None && value is Object {
        match found {
            Some((url, nested)) => if image_data_url(url) {
                Some(image_part(url, either(value.get("detail"@), nested)))
            } else {
                None
            },
            None => None,
        }
    } else {
        None
    }
}

/// The image that an object is.
pub fn structured_tool_image(value: &Json) -> (part: Option<Json>)
    ensures
        part_view(part) == structured_image(value@),
{
    let kind = value.get_text("type");
    if is_text(kind, "image") {
        proof {
            reveal_strlit("image");
            reveal_strlit("input_image");
            reveal_strlit("output_image");
            reveal_strlit("image_url");
            assert("image"@.len() == 5 && "input_image"@.len() == 11 && "output_image"@.len() == 12
                && "image_url"@.len() == 9);
        }
        return typed_tool_image(value);
    }
    let listed = is_text(kind, "input_image") || is_text(kind, "output_image") || is_text(
        kind,
        "image_url",
    );
    if !listed && kind.is_some() {
        return None;
    }
    let image_url = match first_of(value.get("image_url"), value.get("imageUrl")) {
        Some(image_url) => image_url,
        None => {
            return None;
        },
    };
    match image_url_value(image_url) {
        Some((url, nested)) => {
            let fits = if listed {
                supported_tool_image_url(&url)
            } else {
                is_image_base64_data_url(&url)
            };
            if fits {
                Some(chat_image_part(&url, first_of(value.get("detail"), nested)))
            } else {
                None
            }
        },
        None => None,
    }
}

/// The URL of an image among the parts of a message.
pub open spec fn part_url(part: JsonView) -> Option<Seq<char>> {
    text_in(at(part.get("image_url"@), "url"@))
}

/// Whether an image of a URL is among the first parts of a list.
pub open spec fn has_image(media: Seq<JsonView>, url: Option<Seq<char>>, count: int) -> bool
    decreases count,
{
    0 < count <= media.len() && (has_image(media, url, count - 1) || part_url(media[count - 1])
        == url)
}

/// The images with one more, unless one of its URL is there.
pub open spec fn with_image(media: Seq<JsonView>, part: JsonView) -> Seq<JsonView> {
    if has_image(media, part_url(part), media.len() as int) {
        media
    } else {
        media.push(part)
    }
}

/// Adds an image, unless one of its URL is there.
pub fn push_tool_image(media: &mut Vec<Json>, part: Json)
    ensures
        views(final(media)@) == with_image(views(old(media)@), part@),
{
    let ghost before = views(media@);
    let mut duplicate = false;
    let mut index: usize = 0;
    while index < media.len()
        invariant
            index <= media@.len(),
            before == views(media@),
            duplicate == has_image(before, part_url(part@), index as int),
        decreases media@.len() - index,
    {
        assert(before[index as int] == media@[index as int]@);
        let url = text_at(get_at(part.get("image_url"), "url"));
        let other = text_at(get_at(media[index].get("image_url"), "url"));
        let equal = match (url, other) {
            (Some(url), Some(other)) => same(url, other),
            (None, None) => true,
            _ => false,
        };
        duplicate = duplicate || equal;
        index += 1;
    }
    if !duplicate {
        media.push(part);
        assert(views(media@) =~= before.push(part@));
    }
}

/// Whether a byte can stand in base64.
pub open spec fn base64_byte(byte: u8) -> bool {
    97 <= byte <= 122 || 65 <= byte <= 90 || 48 <= byte <= 57 || byte == 43 || byte == 47 || byte
        == 61
}

/// Whether a text is a payload that is too large to be passed on as text.
pub open spec fn large_payload(value: Seq<char>) -> bool {
    let trimmed = trim(value);
    let bytes = encode_utf8(trimmed);
    ||| bytes.len() >= WHOLE_IMAGE_DATA_URL_MIN_BYTES && begins(lower(trimmed), "data:"@)
    ||| bytes.len() >= BASE64ISH_MIN_BYTES && (forall|i: int|
        0 <= i < bytes.len() ==> base64_byte(#[trigger] bytes[i]))
}

fn is_large_payload(value: &str) -> (large: bool)
    ensures
        large == large_payload(value@),
{
    let trimmed_value = trimmed(value);
    let bytes = trimmed_value.as_str().as_bytes();
    if bytes.len() >= WHOLE_IMAGE_DATA_URL_MIN_BYTES && starts_with(
        &lowered(&trimmed_value),
        "data:",
    ) {
        return true;
    }
    if bytes.len() < BASE64ISH_MIN_BYTES {
        return false;
    }
    let mut index: usize = 0;
    while index < bytes.len()
        invariant
            index <= bytes@.len(),
            bytes@ == encode_utf8(trim(value@)),
            !(bytes@.len() >= WHOLE_IMAGE_DATA_URL_MIN_BYTES && begins(
                lower(trim(value@)),
                "data:"@,
            )),
            forall|i: int| 0 <= i < index ==> base64_byte(#[trigger] bytes@[i]),
        decreases bytes@.len() - index,
    {
        let byte: u8 = bytes[index];
        if !((97 <= byte && byte <= 122) || (65 <= byte && byte <= 90) || (48 <= byte && byte <= 57)
            || byte == 43 || byte == 47 || byte == 61) {
            assert(!base64_byte(bytes@[index as int]));
            return false;
        }
        index += 1;
    }
    true
}

/// The note that stands for a payload that was dropped.
pub open spec fn omitted(value: Seq<char>) -> Seq<char> {
    "[omitted "@ + numeral(encode_utf8(value).len(), 10) + " bytes of tool media]"@
}

/// The value with a note in place of every large payload.
pub open spec fn clamped(value: JsonView) -> JsonView
    decreases value,
{
    match value {
        JsonView::Text(text) => if large_payload(text) {
            JsonView::Text(omitted(text))
        } else {
            value
        },
        JsonView::Array(items) => JsonView::Array(clamped_items(items)),
        JsonView::Object(fields) => JsonView::Object(clamped_fields(fields)),
        _ => value,
    }
}

/// The items with a note in place of every large payload.
pub open spec fn clamped_items(items: Seq<JsonView>) -> Seq<JsonView>
    decreases items,
{
    Seq::new(
        items.len(),
        |i: int|
            if 0 <= i < items.len() {
                clamped(items[i])
            } else {
                arbitrary()
            },
    )
}

/// The fields with a note in place of every large payload.
pub open spec fn clamped_fields(fields: Seq<(Seq<char>, JsonView)>) -> Seq<(Seq<char>, JsonView)>
    decreases fields,
{
    Seq::new(
        fields.len(),
        |i: int|
            if 0 <= i < fields.len() {
                (fields[i].0, clamped(fields[i].1))
            } else {
                arbitrary()
            },
    )
}

/// The value with a note in place of every large payload.
pub fn clamp_residual_tool_media_payloads(value: &Json) -> (result: Json)
    ensures
        result@ == clamped(value@),
    decreases *value,
{
    if let Some(items) = value.as_array() {
        let ghost all = views(items@);
        let mut list: Vec<Json> = Vec::new();
        let mut index: usize = 0;
        while index < items.len()
            invariant
                index <= items@.len(),
                *value == Json::Array(*items),
                all == views(items@),
                list@.len() == index,
                forall|i: int| 0 <= i < index ==> (#[trigger] list@[i])@ == clamped(all[i]),
            decreases items@.len() - index,
        {
            assert(decreases_to!(*value => value->Array_0));
            assert(decreases_to!(*items => items@));
            assert(decreases_to!(items@ => items@[index as int]));
            list.push(clamp_residual_tool_media_payloads(&items[index]));
            index += 1;
        }
        assert(views(list@) =~= clamped_items(all));
        return array(list);
    }
    if let Some(fields) = value.as_object() {
        let ghost all = field_views(fields@);
        let mut list: Vec<(String, Json)> = Vec::new();
        let mut index: usize = 0;
        while index < fields.len()
            invariant
                index <= fields@.len(),
                *value == Json::Object(*fields),
                all == field_views(fields@),
                list@.len() == index,
                forall|i: int|
                    0 <= i < index ==> (#[trigger] list@[i]).0@ == all[i].0 && list@[i].1@
                        == clamped(all[i].1),
            decreases fields@.len() - index,
        {
            assert(decreases_to!(*value => value->Object_0));
            assert(decreases_to!(*fields => fields@));
            assert(decreases_to!(fields@ => fields@[index as int]));
            assert(decreases_to!(fields@[index as int] => fields@[index as int].1));
            list.push(
                (
                    fields[index].0.clone(),
                    clamp_residual_tool_media_payloads(&fields[index].1),
                ),
            );
            index += 1;
        }
        let result = Json::Object(list);
        assert(result@->Object_0 =~= clamped_fields(all));
        return result;
    }
    match value.as_text() {
        Some(content) => if is_large_payload(content) {
            text(
                &concat3(
                    "[omitted ",
                    &decimal(byte_len(content) as u64),
                    " bytes of tool media]",
                ),
            )
        } else {
            text(content)
        },
        None => value.copy(),
    }
}

/// The image that a text is as a whole.
pub open spec fn whole_image(value: Seq<char>) -> Option<JsonView> {
    if encode_utf8(trim(value)).len() >= WHOLE_IMAGE_DATA_URL_MIN_BYTES && image_data_url(
        trim(value),
    ) {
        Some(image_part(trim(value), None))
    } else {
        None
    }
}

/// The image that a text is as a whole.
pub fn whole_string_tool_image(value: &str) -> (part: Option<Json>)
    ensures
        part_view(part) == whole_image(value@),
{
    let trimmed_value = trimmed(value);
    if byte_len(&trimmed_value) < WHOLE_IMAGE_DATA_URL_MIN_BYTES || !is_image_base64_data_url(
        &trimmed_value,
    ) {
        return None;
    }
    Some(chat_image_part(&trimmed_value, None))
}

/// The note that stands for an image in the output of a tool.
pub open spec fn image_marker() -> Seq<char> {
    "[image attached separately]"@
}

/// Whether a text may be a JSON array or object.
pub open spec fn may_be_json(value: Seq<char>) -> bool {
    trim(value).len() > 0 && (trim(value)[0] == '{' || trim(value)[0] == '[')
}

/// The value with a note in place of every image, and the images found so far
/// with those found in it. Images are looked for in texts, in arrays, in the
/// field `content` of objects and in JSON that is held as text.
pub open spec fn sanitized(value: JsonView, media: Seq<JsonView>, depth: int) -> (
    JsonView,
    Seq<JsonView>,
)
    decreases MAX_TOOL_MEDIA_DEPTH + 1 - depth, 0int,
{
    if depth > MAX_TOOL_MEDIA_DEPTH {
        (value, media)
    } else {
        match value {
            JsonView::Text(text) => match whole_image(text) {
                Some(part) => (JsonView::Text(image_marker()), with_image(media, part)),
                None => if may_be_json(text) {
                    match parsed_json(encode_utf8(text)) {
                        Ok(parsed) => {
                            let (inner, found) = sanitized(parsed, media, depth + 1);
                            if found.len() == media.len() {
                                (value, found)
                            } else {
                                (JsonView::Text(rendered(clamped(inner))), found)
                            }
                        },
                        Err(_) => (value, media),
                    }
                } else {
                    (value, media)
                },
            },
            JsonView::Array(items) => {
                let (list, found) = sanitized_items(items, media, depth + 1, items.len() as int);
                (JsonView::Array(list), found)
            },
            JsonView::Object(_) => match structured_image(value) {
                Some(part) => (
                    obj().entry("type"@, JsonView::Text("text"@)).entry(
                        "text"@,
                        JsonView::Text(image_marker()),
                    ),
                    with_image(media, part),
                ),
                None => match value.get("content"@) {
                    Some(content) => {
                        let (inner, found) = sanitized(content, media, depth + 1);
                        (value.with("content"@, inner), found)
                    },
                    None => (value, media),
                },
            },
            _ => (value, media),
        }
    }
}

/// The first items of a list with a note in place of every image, and the
/// images found so far with those found in them.
pub open spec fn sanitized_items(
    items: Seq<JsonView>,
    media: Seq<JsonView>,
    depth: int,
    count: int,
) -> (Seq<JsonView>, Seq<JsonView>)
    decreases MAX_TOOL_MEDIA_DEPTH + 1 - depth, count,
{
    if !(0 < count <= items.len()) {
        (seq![], media)
    } else {
        let (list, found) = sanitized_items(items, media, depth, count - 1);
        let (item, more) = sanitized(items[count - 1], found, depth);
        (list.push(item), more)
    }
}

/// The value with a note in place of every image. The images are added to those
/// found so far.
pub fn sanitize_tool_output_media(value: &Json, media: &mut Vec<Json>, depth: usize) -> (result:
    Json)
    requires
        depth <= MAX_TOOL_MEDIA_DEPTH + 1,
    ensures
        (result@, views(final(media)@)) == sanitized(value@, views(old(media)@), depth as int),
    decreases MAX_TOOL_MEDIA_DEPTH + 1 - depth,
{
    if depth > MAX_TOOL_MEDIA_DEPTH {
        return value.copy();
    }
    if let Some(content) = value.as_text() {
        if let Some(part) = whole_string_tool_image(content) {
            push_tool_image(media, part);
            return text("[image attached separately]");
        }
        let first = trimmed(content);
        let chars = chars_of(&first);
        if chars.len() == 0 || (chars[0] != '{' && chars[0] != '[') {
            return value.copy();
        }
        let before: usize = media.len();
        return match parse_json(content.as_bytes()) {
            Ok(parsed) => {
                let inner = sanitize_tool_output_media(&parsed, media, depth + 1);
                if media.len() == before {
                    value.copy()
                } else {
                    text(&render_json(&clamp_residual_tool_media_payloads(&inner)))
                }
            },
            Err(_) => value.copy(),
        };
    }
    if let Some(items) = value.as_array() {
        let ghost all = views(items@);
        let mut list: Vec<Json> = Vec::new();
        assert(views(list@) =~= seq![]);
        let mut index: usize = 0;
        while index < items.len()
            invariant
                depth <= MAX_TOOL_MEDIA_DEPTH,
                index <= items@.len(),
                all == views(items@),
                (views(list@), views(media@)) == sanitized_items(
                    all,
                    views(old(media)@),
                    depth + 1,
                    index as int,
                ),
            decreases items@.len() - index,
        {
            assert(all[index as int] == items@[index as int]@);
            let ghost done = views(list@);
            let item = sanitize_tool_output_media(&items[index], media, depth + 1);
            let ghost added = item@;
            list.push(item);
            assert(views(list@) =~= done.push(added));
            index += 1;
        }
        return array(list);
    }
    if value.is_object() {
        if let Some(part) = structured_tool_image(value) {
            push_tool_image(media, part);
            return object().entry("type", text("text")).entry(
                "text",
                text("[image attached separately]"),
            );
        }
        if let Some(content) = value.get("content") {
            let inner = sanitize_tool_output_media(content, media, depth + 1);
            return value.copy().with("content", inner);
        }
    }
    value.copy()
}

/// The output of a tool as text without images, and the images in it.
pub open spec fn output_and_media(value: JsonView) -> (Seq<char>, Seq<JsonView>) {
    let (inner, media) = sanitized(value, seq![], 0);
    if media.len() == 0 {
        (plain_text(value), media)
    } else {
        (plain_text(clamped(inner)), media)
    }
}

/// The output of a tool as text without images, and the images in it.
pub fn tool_output_content_and_media(value: &Json) -> (result: (String, Vec<Json>))
    ensures
        (result.0@, views(result.1@)) == output_and_media(value@),
{
    let mut media: Vec<Json> = Vec::new();
    assert(views(media@) =~= seq![]);
    let inner = sanitize_tool_output_media(value, &mut media, 0);
    if media.len() == 0 {
        return (json_value_string(value), media);
    }
    (json_value_string(&clamp_residual_tool_media_payloads(&inner)), media)
}

/// The output of a tool that is a text in which no image is found is kept as it
/// is.
pub proof fn law_texts_without_images_are_kept(output: Seq<char>)
    ensures
        output_and_media(JsonView::Text(output)).1.len() == 0 ==> output_and_media(
            JsonView::Text(output),
        ).0 == output,
{
}

/// A text that is not long and does not begin as a JSON array or object holds no
/// image.
pub proof fn law_plain_texts_hold_no_images(output: Seq<char>)
    requires
        encode_utf8(trim(output)).len() < 8192,
        trim(output).len() > 0 ==> trim(output)[0] != '{' && trim(output)[0] != '[',
    ensures
        output_and_media(JsonView::Text(output)).1.len() == 0,
        output_and_media(JsonView::Text(output)).0 == output,
{
}

/// An image that a tool returns as a part of its own is attached, with its URL
/// and its detail, where the model can fetch it.
pub proof fn law_images_of_tools_are_attached(part: JsonView, url: Seq<char>)
    requires
        part is Object,
        part.get_text("type"@) == Some("input_image"@) || part.get_text("type"@) == Some(
            "output_image"@,
        ) || part.get_text("type"@) == Some("image_url"@),
        part.get("image_url"@) == Some(JsonView::Text(url)),
        trim(url) == url,
        begins(lower(url), "https://"@),
    ensures
        ({
            let media = output_and_media(part).1;
            &&& media.len() == 1
            &&& media[0].get_text("type"@) == Some("image_url"@)
            &&& media[0].get("image_url"@) matches Some(image) && image.get_text("url"@) == Some(
                url,
            ) && image.get("detail"@) == part.get("detail"@)
        }),
{
    broadcast use lemma_entry_field;

    reveal_strlit("type");
    reveal_strlit("image_url");
    reveal_strlit("url");
    reveal_strlit("detail");
    reveal_strlit("https://");
    assert("type"@.len() == 4);
    assert("image_url"@.len() == 9);
    assert("url"@.len() == 3);
    assert("detail"@.len() == 6);
    assert("https://"@.len() == 8);
    assert(lower(url).len() >= 8);
    if url.len() == 0 {
        assert(lower(url).len() == 0);
    }
    let detail = part.get("detail"@);
    assert(structured_image(part) == Some(image_part(url, detail)));
    let image = image_part(url, detail);
    reveal_with_fuel(sanitized, 2);
    assert(sanitized(part, seq![], 0).1 =~= seq![image]);
    let inner = obj().entry("url"@, JsonView::Text(url));
    assert(inner.get("detail"@) is None);
    assert(inner.get("url"@) == Some(JsonView::Text(url)));
}

/// The output of a tool that is neither a text nor holds an image is written as
/// JSON.
pub proof fn law_other_outputs_are_written_as_json(value: JsonView)
    requires
        value is Object || value is Array,
        output_and_media(value).1.len() == 0,
    ensures
        output_and_media(value).0 == rendered(value),
{
}

/// An image beside another part of the output of a tool is attached, and the other
/// part is kept as it was.
pub proof fn law_images_are_taken_out_of_lists(other: JsonView, part: JsonView, url: Seq<char>)
    requires
        other is Object,
        structured_image(other) is None,
        other.get("content"@) is None,
        part is Object,
        part.get_text("type"@) == Some("input_image"@),
        part.get("image_url"@) == Some(JsonView::Text(url)),
        trim(url) == url,
        begins(lower(url), "https://"@),
    ensures
        ({
            let (inner, media) = sanitized(JsonView::Array(seq![other, part]), seq![], 0);
            &&& media.len() == 1
            &&& media[0].get("image_url"@) matches Some(image) && image.get_text("url"@) == Some(
                url,
            )
            &&& inner matches JsonView::Array(items) && items.len() == 2 && items[0] == other
        }),
{
    broadcast use lemma_entry_field;

    reveal_strlit("type");
    reveal_strlit("image_url");
    reveal_strlit("url");
    reveal_strlit("detail");
    reveal_strlit("https://");
    assert("type"@.len() == 4);
    assert("image_url"@.len() == 9);
    assert("url"@.len() == 3);
    assert("detail"@.len() == 6);
    assert("https://"@.len() == 8);
    assert(lower(url).len() >= 8);
    if url.len() == 0 {
        assert(lower(url).len() == 0);
    }
    let none = Seq::<JsonView>::empty();
    let detail = part.get("detail"@);
    let image = image_part(url, detail);
    assert(structured_image(part) == Some(image));
    let items = seq![other, part];
    reveal_with_fuel(sanitized, 3);
    reveal_with_fuel(sanitized_items, 4);
    assert(sanitized(other, none, 1) == (other, none));
    assert(!has_image(none, part_url(image), 0));
    let (shown, found) = sanitized(part, none, 1);
    assert(found =~= seq![image]);
    let (first, after_first) = sanitized_items(items, none, 1, 1);
    assert(sanitized_items(items, none, 1, 0) == (none, none));
    assert(first =~= seq![other]);
    assert(after_first == none);
    let (both, after_both) = sanitized_items(items, none, 1, 2);
    assert(both =~= seq![other, shown]);
    assert(after_both =~= seq![image]);
    let inner = obj().entry("url"@, JsonView::Text(url));
    assert(inner.get("url"@) == Some(JsonView::Text(url)));
    assert(image.get("image_url"@) is Some);
}

} // verus!
