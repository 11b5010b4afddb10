//! Requests as the official service takes them, and changes that every provider
//! gets.
use crate::failure::is_text;
use crate::headers::{get_header_word, header_views, header_word, HeaderField};
use crate::json::{
    array, at, copy_all, either, get_at, law_remove_keeps_others, law_removed_is_gone,
    law_set_keeps_others, law_set_then_get, lemma_entry_field, lemma_with_field, obj, object,
    one_item, parse_json, parsed_json, render_bytes, rendered, str_view, text, text_at, text_in,
    views, Json, JsonFault, JsonView,
};
use crate::text::{
    begins, concat2, law_texts_are_parted_at_the_first_place, parted, same, split_once, starts_with, string_view, trim, trimmed,
};
use crate::urls::{
    generates, generates_response, generation_url, is_responses_generation_url, is_responses_url,
    pair_views, responses_url,
};
use vstd::prelude::*;
use vstd::string::*;
use vstd::utf8::*;

verus! {

/// The prefix that the identifier of an input item has to have.
pub open spec fn id_prefix(kind: Option<Seq<char>>) -> Option<Seq<char>> {
    if kind == Some("custom_tool_call"@) {
        Some("ctc_"@)
    } else if kind == Some("reasoning"@) {
        Some("rs_"@)
    } else if kind == Some("function_call"@) {
        Some("fc_"@)
    } else if kind == Some("message"@) {
        Some("msg_"@)
    } else {
        None
    }
}

/// An identifier with another prefix: what is in front of its first underscore
/// is replaced.
pub open spec fn with_prefix(id: Seq<char>, prefix: Seq<char>) -> Seq<char> {
    prefix + (match parted(id, '_') {
        Some((_, suffix)) => suffix,
        None => id,
    })
}

/// An input item whose identifier lacks the prefix of its type, with that
/// prefix; none where there is nothing to change.
pub open spec fn renamed_item(item: JsonView) -> Option<JsonView> {
    match (id_prefix(item.get_text("type"@)), item.get_text("id"@)) {
        (Some(prefix), Some(id)) => if begins(id, prefix) {
            None
        } else {
            Some(item.with("id"@, JsonView::Text(with_prefix(id, prefix))))
        },
        _ => None,
    }
}

/// An input item with the identifier that its type asks for.
pub open spec fn normal_item(item: JsonView) -> JsonView {
    match renamed_item(item) {
        Some(renamed) => renamed,
        None => item,
    }
}

/// The items with the identifiers that their types ask for.
pub open spec fn normal_items(items: Seq<JsonView>) -> Seq<JsonView> {
    Seq::new(items.len(), |i: int| normal_item(items[i]))
}

/// Whether one of the first items of a list needs another identifier.
pub open spec fn any_renamed(items: Seq<JsonView>, count: int) -> bool
    decreases count,
{
    0 < count <= items.len() && (any_renamed(items, count - 1) || renamed_item(items[count - 1])
        is Some)
}

/// The items of the input of a request, if it has some.
pub open spec fn input_items(value: JsonView) -> Option<Seq<JsonView>> {
    match value.get("input"@) {
        Some(JsonView::Array(items)) => Some(items),
        _ => None,
    }
}

/// A request whose input items have the identifiers that their types ask for.
pub open spec fn normal_input(value: JsonView) -> JsonView {
    match input_items(value) {
        Some(items) => value.with("input"@, JsonView::Array(normal_items(items))),
        None => value,
    }
}

/// Whether an input item of a request needs another identifier.
pub open spec fn input_renamed(value: JsonView) -> bool {
    match input_items(value) {
        Some(items) => any_renamed(items, items.len() as int),
        None => false,
    }
}

/// A request whose input items, and those of the response in it, have the
/// identifiers that their types ask for; and whether one was changed.
pub open spec fn normal_ids(value: JsonView) -> (JsonView, bool) {
    let own = normal_input(value);
    match own.get("response"@) {
        Some(response) => (
            if input_items(response) is Some {
                own.with("response"@, normal_input(response))
            } else {
                own
            },
            input_renamed(value) || input_renamed(response),
        ),
        None => (own, input_renamed(value)),
    }
}

/// An input item with the identifier that its type asks for, and whether it was
/// changed.
pub fn normalize_official_input_item_id(item: Json) -> (result: (Json, bool))
    ensures
        result.0@ == normal_item(item@),
        result.1 == (renamed_item(item@) is Some),
{
    let kind = item.get_text("type");
    let prefix = if is_text(kind, "custom_tool_call") {
        "ctc_"
    } else if is_text(kind, "reasoning") {
        "rs_"
    } else if is_text(kind, "function_call") {
        "fc_"
    } else if is_text(kind, "message") {
        "msg_"
    } else {
        return (item, false);
    };
    let id = match item.get_text("id") {
        Some(id) => id,
        None => {
            return (item, false);
        },
    };
    if starts_with(id, prefix) {
        return (item, false);
    }
    let renamed = match split_once(id, '_') {
        Some((_, suffix)) => concat2(prefix, &suffix),
        None => concat2(prefix, id),
    };
    (item.with("id", Json::Text(renamed)), true)
}

fn normalize_input(value: Json) -> (result: (Json, bool))
    ensures
        result.0@ == normal_input(value@),
        result.1 == input_renamed(value@),
{
    let (list, changed) = match value.get("input") {
        Some(input) => match input.as_array() {
            Some(items) => {
                let ghost all = views(items@);
                let mut list: Vec<Json> = Vec::new();
                let mut changed = false;
                let mut index: usize = 0;
                while index < items.len()
                    invariant
                        index <= items@.len(),
                        all == views(items@),
                        list@.len() == index,
                        changed == any_renamed(all, index as int),
                        forall|i: int|
                            0 <= i < index ==> (#[trigger] list@[i])@ == normal_item(all[i]),
                    decreases items@.len() - index,
                {
                    assert(all[index as int] == items@[index as int]@);
                    let (item, renamed) = normalize_official_input_item_id(items[index].copy());
                    list.push(item);
                    changed = changed || renamed;
                    index += 1;
                }
                assert(views(list@) =~= normal_items(all));
                (list, changed)
            },
            None => {
                return (value, false);
            },
        },
        None => {
            return (value, false);
        },
    };
    (value.with("input", array(list)), changed)
}

/// A request whose input items have the identifiers that their types ask for,
/// and whether one was changed.
pub fn normalize_official_input_item_ids(value: Json) -> (result: (Json, bool))
    ensures
        (result.0@, result.1) == normal_ids(value@),
{
    let (own, changed) = normalize_input(value);
    let (response, response_changed) = match own.get("response") {
        Some(response) => {
            let has_items = match response.get("input") {
                Some(input) => input.as_array().is_some(),
                None => false,
            };
            if !has_items {
                return (own, changed);
            }
            normalize_input(response.copy())
        },
        None => {
            return (own, changed);
        },
    };
    (own.with("response", response), changed || response_changed)
}

/// The identifier of an item that was made to fit fits: nothing is changed a
/// second time.
pub proof fn law_item_ids_are_normalized_once(item: JsonView)
    ensures
        renamed_item(normal_item(item)) is None,
        normal_item(normal_item(item)) == normal_item(item),
{
    if renamed_item(item) is Some {
        reveal_strlit("id");
        reveal_strlit("type");
        assert("id"@.len() != "type"@.len());
        let prefix = id_prefix(item.get_text("type"@))->0;
        let id = item.get_text("id"@)->0;
        let renamed = with_prefix(id, prefix);
        let fields = item->Object_0;
        law_set_then_get(fields, "id"@, JsonView::Text(renamed));
        law_set_keeps_others(fields, "id"@, JsonView::Text(renamed), "type"@);
        assert(renamed.take(prefix.len() as int) =~= prefix);
    }
}

/// A value without a field of each of the names that the official service does
/// not take.
pub open spec fn without_refused(value: JsonView) -> JsonView {
    value.without("max_output_tokens"@).without("max_completion_tokens"@).without(
        "temperature"@,
    ).without("top_p"@).without("truncation"@).without("user"@).without("context_management"@)
}

/// The value without a service tier other than `priority`.
pub open spec fn with_allowed_tier(value: JsonView) -> JsonView {
    match value.get_text("service_tier"@) {
        Some(tier) => if tier == "priority"@ {
            value
        } else {
            value.without("service_tier"@)
        },
        None => value,
    }
}

/// The value with a field set that it does not have.
pub open spec fn with_default(value: JsonView, key: Seq<char>, default: JsonView) -> JsonView {
    match value.get(key) {
        Some(_) => value,
        None => value.with(key, default),
    }
}

/// Whether one of the first items of a list is the given text.
pub open spec fn lists_text(items: Seq<JsonView>, wanted: Seq<char>, count: int) -> bool
    decreases count,
{
    0 < count <= items.len() && (lists_text(items, wanted, count - 1) || items[count - 1].text()
        == Some(wanted))
}

/// The value with encrypted reasoning among what is asked for.
pub open spec fn with_encrypted_reasoning(value: JsonView) -> JsonView {
    let wanted = "reasoning.encrypted_content"@;
    match value.get("include"@) {
        Some(JsonView::Array(items)) => if lists_text(items, wanted, items.len() as int) {
            value
        } else {
            value.with("include"@, JsonView::Array(items.push(JsonView::Text(wanted))))
        },
        Some(_) => value,
        None => value.with("include"@, JsonView::Array(seq![JsonView::Text(wanted)])),
    }
}

/// The value with an input that is a text made a message of the user.
pub open spec fn with_input_list(value: JsonView) -> JsonView {
    match value.get_text("input"@) {
        Some(content) => value.with(
            "input"@,
            JsonView::Array(
                seq![
                    obj().entry("role"@, JsonView::Text("user"@)).entry(
                        "content"@,
                        JsonView::Array(
                            seq![
                                obj().entry("type"@, JsonView::Text("input_text"@)).entry(
                                    "text"@,
                                    JsonView::Text(content),
                                ),
                            ],
                        ),
                    ),
                ],
            ),
        ),
        None => value,
    }
}

/// An item with the role `developer` in place of `system`.
pub open spec fn developer_item(item: JsonView) -> JsonView {
    if item.get_text("role"@) == Some("system"@) {
        item.with("role"@, JsonView::Text("developer"@))
    } else {
        item
    }
}

/// The value with the role `developer` in place of `system` in its input.
pub open spec fn with_developers(value: JsonView) -> JsonView {
    match input_items(value) {
        Some(items) => value.with(
            "input"@,
            JsonView::Array(Seq::new(items.len(), |i: int| developer_item(items[i]))),
        ),
        None => value,
    }
}

/// A request for a response as the official service takes it. It is streamed
/// and not stored there; what the service refuses is left out.
pub open spec fn official_request(value: JsonView, session: Option<Seq<char>>) -> JsonView {
    let streamed = value.with("store"@, JsonView::Bool(false)).with("stream"@, JsonView::Bool(true));
    let allowed = with_allowed_tier(without_refused(streamed));
    let parallel = with_default(allowed, "parallel_tool_calls"@, JsonView::Bool(true));
    let keyed = match session {
        Some(session) => with_default(parallel, "prompt_cache_key"@, JsonView::Text(session)),
        None => parallel,
    };
    with_developers(with_input_list(with_encrypted_reasoning(keyed)))
}

fn with_default_field(value: Json, key: &str, default: Json) -> (result: Json)
    ensures
        result@ == with_default(value@, key@, default@),
{
    if value.get(key).is_some() {
        value
    } else {
        value.with(key, default)
    }
}

fn lists_text_of(items: &Vec<Json>, wanted: &str) -> (found: bool)
    ensures
        found == lists_text(views(items@), wanted@, items@.len() as int),
{
    let ghost all = views(items@);
    let mut found = false;
    let mut index: usize = 0;
    while index < items.len()
        invariant
            index <= items@.len(),
            all == views(items@),
            found == lists_text(all, wanted@, index as int),
        decreases items@.len() - index,
    {
        assert(all[index as int] == items@[index as int]@);
        found = found || is_text(items[index].as_text(), wanted);
        index += 1;
    }
    found
}

fn with_encrypted_reasoning_of(value: Json) -> (result: Json)
    ensures
        result@ == with_encrypted_reasoning(value@),
{
    let list = match value.get("include") {
        Some(present) => match present.as_array() {
            Some(items) => {
                if lists_text_of(items, "reasoning.encrypted_content") {
                    return value;
                }
                let mut list = copy_all(items);
                let ghost before = views(list@);
                list.push(text("reasoning.encrypted_content"));
                assert(views(list@) =~= before.push(
                    JsonView::Text("reasoning.encrypted_content"@),
                ));
                array(list)
            },
            None => {
                return value;
            },
        },
        None => one_item(text("reasoning.encrypted_content")),
    };
    value.with("include", list)
}

fn with_input_list_of(value: Json) -> (result: Json)
    ensures
        result@ == with_input_list(value@),
{
    let content = match value.get_text("input") {
        Some(content) => content.to_owned(),
        None => {
            return value;
        },
    };
    let part = object().entry("type", text("input_text")).entry("text", Json::Text(content));
    let message = object().entry("role", text("user")).entry("content", one_item(part));
    value.with("input", one_item(message))
}

fn with_developers_of(value: Json) -> (result: Json)
    ensures
        result@ == with_developers(value@),
{
    let list = match value.get("input") {
        Some(input) => match input.as_array() {
            Some(items) => {
                let ghost all = views(items@);
                let mut list: Vec<Json> = Vec::new();
                let mut index: usize = 0;
                while index < items.len()
                    invariant
                        index <= items@.len(),
                        all == views(items@),
                        list@.len() == index,
                        forall|i: int|
                            0 <= i < index ==> (#[trigger] list@[i])@ == developer_item(all[i]),
                    decreases items@.len() - index,
                {
                    assert(all[index as int] == items@[index as int]@);
                    let item = items[index].copy();
                    let item = if is_text(item.get_text("role"), "system") {
                        item.with("role", text("developer"))
                    } else {
                        item
                    };
                    list.push(item);
                    index += 1;
                }
                assert(views(list@) =~= Seq::new(all.len(), |i: int| developer_item(all[i])));
                array(list)
            },
            None => {
                return value;
            },
        },
        None => {
            return value;
        },
    };
    value.with("input", list)
}

/// A request for a response as the official service takes it.
pub fn official_generation_request(value: Json, session_identity: Option<&str>) -> (result: Json)
    requires
        value@ is Object,
    ensures
        result@ == official_request(value@, str_view(session_identity)),
{
    let value = value.with("store", Json::Bool(false)).with("stream", Json::Bool(true));
    let value = value.without("max_output_tokens").without("max_completion_tokens").without(
        "temperature",
    ).without("top_p").without("truncation").without("user").without("context_management");
    let refused_tier = match value.get_text("service_tier") {
        Some(tier) => !same(tier, "priority"),
        None => false,
    };
    let value = if refused_tier {
        value.without("service_tier")
    } else {
        value
    };
    let value = with_default_field(value, "parallel_tool_calls", Json::Bool(true));
    let value = match session_identity {
        Some(session) => with_default_field(value, "prompt_cache_key", text(session)),
        None => value,
    };
    with_developers_of(with_input_list_of(with_encrypted_reasoning_of(value)))
}

/// The body of a request as the official service takes it, given what reading
/// it as JSON gave. Nothing, where a request for a response is neither an
/// object nor null.
pub open spec fn official_body(
    body: Seq<u8>,
    parsed: Result<JsonView, JsonFault>,
    generation: bool,
    session: Option<Seq<char>>,
) -> Option<Seq<u8>> {
    match parsed {
        Err(_) => Some(body),
        Ok(value) => {
            let (named, changed) = normal_ids(value);
            if !generation {
                if changed {
                    Some(encode_utf8(rendered(named)))
                } else {
                    Some(body)
                }
            } else if named is Object {
                Some(encode_utf8(rendered(official_request(named, session))))
            } else if named is Null {
                Some(encode_utf8(rendered(official_request(obj(), session))))
            } else {
                None
            }
        },
    }
}

/// A body that may be missing.
pub open spec fn body_view(body: Option<Vec<u8>>) -> Option<Seq<u8>> {
    match body {
        Some(body) => Some(body@),
        None => None,
    }
}

/// The body of a request as the official service takes it. Requests to other
/// providers and other requests are passed on as they are. There is no such body
/// for a request for a response that is JSON, but neither an object nor null.
pub fn normalize_official_responses_input(
    official_codex: bool,
    method: &str,
    path_and_query: Option<&str>,
    body: Vec<u8>,
    session_identity: Option<&str>,
) -> (result: Option<Vec<u8>>)
    ensures
        body_view(result) == if official_codex && method@ == "POST"@ && (str_view(
            path_and_query,
        ) matches Some(target) && responses_url(target)) {
            official_body(
                body@,
                parsed_json(body@),
                generation_url(str_view(path_and_query)->0),
                str_view(session_identity),
            )
        } else {
            Some(body@)
        },
{
    let target = match path_and_query {
        Some(target) => target,
        None => {
            return Some(body);
        },
    };
    if !official_codex || !same(method, "POST") || !is_responses_url(target) {
        return Some(body);
    }
    let value = match parse_json(body.as_slice()) {
        Ok(value) => value,
        Err(_) => {
            return Some(body);
        },
    };
    let (named, changed) = normalize_official_input_item_ids(value);
    if !is_responses_generation_url(target) {
        return if changed {
            Some(render_bytes(&named))
        } else {
            Some(body)
        };
    }
    if named.is_object() {
        Some(render_bytes(&official_generation_request(named, session_identity)))
    } else if named.is_null() {
        Some(render_bytes(&official_generation_request(object(), session_identity)))
    } else {
        None
    }
}

/// A text without white space at its ends, where something is left of it.
pub open spec fn word(value: Option<Seq<char>>) -> Option<Seq<char>> {
    match value {
        Some(value) => if trim(value).len() > 0 {
            Some(trim(value))
        } else {
            None
        },
        None => None,
    }
}

/// A text without white space at its ends, where something is left of it.
pub fn word_of(value: Option<&str>) -> (result: Option<String>)
    ensures
        string_view(result) == word(str_view(value)),
{
    match value {
        Some(value) => {
            let value = trimmed(value);
            if value.as_str().is_empty() {
                None
            } else {
                Some(value)
            }
        },
        None => None,
    }
}

/// The session that a request names in its body.
pub open spec fn body_session(value: JsonView) -> Option<Seq<char>> {
    either(
        word(value.get_text("prompt_cache_key"@)),
        either(
            word(value.get_text("session_id"@)),
            either(
                word(text_in(at(value.get("metadata"@), "session_id"@))),
                either(
                    word(value.get_text("conversation_id"@)),
                    word(value.get_text("thread_id"@)),
                ),
            ),
        ),
    )
}

/// The session that a request names in its headers.
pub open spec fn header_session(headers: Seq<(Seq<char>, Option<Seq<char>>)>) -> Option<Seq<char>> {
    either(
        header_word(headers, "session_id"@),
        either(
            header_word(headers, "x-session-id"@),
            header_word(headers, "x-client-request-id"@),
        ),
    )
}

/// The session that a request names in its body.
pub fn body_session_of(value: &Json) -> (session: Option<String>)
    ensures
        string_view(session) == body_session(value@),
{
    if let Some(session) = word_of(value.get_text("prompt_cache_key")) {
        return Some(session);
    }
    if let Some(session) = word_of(value.get_text("session_id")) {
        return Some(session);
    }
    if let Some(session) = word_of(text_at(get_at(value.get("metadata"), "session_id"))) {
        return Some(session);
    }
    if let Some(session) = word_of(value.get_text("conversation_id")) {
        return Some(session);
    }
    word_of(value.get_text("thread_id"))
}

/// The session of a request for a response to the official service, by its
/// headers or else by its body.
pub fn official_codex_session_identity(
    official_codex: bool,
    method: &str,
    path_and_query: Option<&str>,
    headers: &Vec<HeaderField>,
    body: &[u8],
) -> (session: Option<String>)
    ensures
        string_view(session) == if official_codex && generates(method@, str_view(path_and_query)) {
            either(
                header_session(header_views(headers@)),
                match parsed_json(body@) {
                    Ok(value) => body_session(value),
                    Err(_) => None,
                },
            )
        } else {
            None
        },
{
    if !official_codex || !generates_response(method, path_and_query) {
        return None;
    }
    if let Some(session) = get_header_word(headers, "session_id") {
        return Some(session);
    }
    if let Some(session) = get_header_word(headers, "x-session-id") {
        return Some(session);
    }
    if let Some(session) = get_header_word(headers, "x-client-request-id") {
        return Some(session);
    }
    match parse_json(body) {
        Ok(value) => body_session_of(&value),
        Err(_) => None,
    }
}

/// Whether a body asks for a stream, given what reading it as JSON gave.
pub open spec fn asks_for_stream(parsed: Result<JsonView, JsonFault>) -> bool {
    match parsed {
        Ok(value) => match value.get("stream"@) {
            Some(stream) => stream.flag() == Some(true),
            None => false,
        },
        Err(_) => false,
    }
}

/// Whether the official service, which answers with a stream, is asked for a
/// response that is none.
pub fn official_codex_needs_non_stream_bridge(
    official_codex: bool,
    method: &str,
    path_and_query: Option<&str>,
    body: &[u8],
) -> (needed: bool)
    ensures
        needed == (official_codex && generates(method@, str_view(path_and_query))
            && !asks_for_stream(parsed_json(body@))),
{
    if !official_codex || !generates_response(method, path_and_query) {
        return false;
    }
    match parse_json(body) {
        Ok(value) => match value.get("stream") {
            Some(stream) => match stream.as_bool() {
                Some(flag) => !flag,
                None => true,
            },
            None => true,
        },
        Err(_) => true,
    }
}

/// The name at the provider of a model.
pub open spec fn mapped_model(
    map: Seq<(Seq<char>, Seq<char>)>,
    model: Seq<char>,
) -> Option<Seq<char>>
    decreases map.len(),
{
    if map.len() == 0 {
        None
    } else if map[0].0 == model {
        Some(map[0].1)
    } else {
        mapped_model(map.drop_first(), model)
    }
}

/// The request with the name at the provider of its model; none where there is
/// nothing to change.
pub open spec fn remodelled(value: JsonView, map: Seq<(Seq<char>, Seq<char>)>) -> Option<JsonView> {
    match word(value.get_text("model"@)) {
        Some(model) => match mapped_model(map, model) {
            Some(mapped) => if mapped == model {
                None
            } else {
                Some(value.with("model"@, JsonView::Text(mapped)))
            },
            None => None,
        },
        None => None,
    }
}

/// A body with a change made to it, given what reading it as JSON gave.
pub open spec fn changed_body(body: Seq<u8>, changed: Option<JsonView>) -> Seq<u8> {
    match changed {
        Some(value) => encode_utf8(rendered(value)),
        None => body,
    }
}

fn find_mapped<'a>(map: &'a Vec<(String, String)>, model: &str) -> (mapped: Option<&'a str>)
    ensures
        str_view(mapped) == mapped_model(pair_views(map@), model@),
{
    let ghost all = pair_views(map@);
    assert(all.skip(0) =~= all);
    let mut index: usize = 0;
    while index < map.len()
        invariant
            index <= map@.len(),
            all == pair_views(map@),
            mapped_model(all, model@) == mapped_model(all.skip(index as int), model@),
        decreases map@.len() - index,
    {
        assert(all.skip(index as int)[0] == (map@[index as int].0@, map@[index as int].1@));
        assert(all.skip(index as int).drop_first() =~= all.skip(index + 1));
        if same(&map[index].0, model) {
            return Some(map[index].1.as_str());
        }
        index += 1;
    }
    None
}

/// The request with the name at the provider of its model; none where there is
/// nothing to change.
pub fn rewrite_request_model(value: Json, model_map: &Vec<(String, String)>) -> (result: Option<Json>)
    ensures
        match result {
            Some(changed) => remodelled(value@, pair_views(model_map@)) == Some(changed@),
            None => remodelled(value@, pair_views(model_map@)) is None,
        },
{
    let model = match word_of(value.get_text("model")) {
        Some(model) => model,
        None => {
            return None;
        },
    };
    match find_mapped(model_map, &model) {
        Some(mapped) => if same(mapped, &model) {
            None
        } else {
            Some(value.with("model", text(mapped)))
        },
        None => None,
    }
}

/// The body with the name at the provider of its model.
pub fn rewrite_model(model_map: &Vec<(String, String)>, body: Vec<u8>) -> (result: Vec<u8>)
    ensures
        result@ == changed_body(
            body@,
            match parsed_json(body@) {
                Ok(value) => remodelled(value, pair_views(model_map@)),
                Err(_) => None,
            },
        ),
{
    if model_map.len() == 0 {
        assert(pair_views(model_map@) =~= seq![]);
        return body;
    }
    match parse_json(body.as_slice()) {
        Ok(value) => match rewrite_request_model(value, model_map) {
            Some(changed) => render_bytes(&changed),
            None => body,
        },
        Err(_) => body,
    }
}

/// The request with the effort `max` in place of `ultra`; none where there is
/// nothing to change.
pub open spec fn without_ultra(value: JsonView) -> Option<JsonView> {
    let max = JsonView::Text("max"@);
    let nested = text_in(at(value.get("reasoning"@), "effort"@)) == Some("ultra"@);
    let first = if nested {
        value.with("reasoning"@, (value.get("reasoning"@)->0).with("effort"@, max))
    } else {
        value
    };
    if first.get_text("reasoning_effort"@) == Some("ultra"@) {
        Some(first.with("reasoning_effort"@, max))
    } else if nested {
        Some(first)
    } else {
        None
    }
}

/// The request with the effort `max` in place of `ultra`; none where there is
/// nothing to change.
pub fn replace_ultra_effort(value: Json) -> (result: Option<Json>)
    ensures
        match result {
            Some(changed) => without_ultra(value@) == Some(changed@),
            None => without_ultra(value@) is None,
        },
{
    let reasoning = match value.get("reasoning") {
        Some(reasoning) => if is_text(reasoning.get_text("effort"), "ultra") {
            Some(reasoning.copy().with("effort", text("max")))
        } else {
            None
        },
        None => None,
    };
    let nested = reasoning.is_some();
    let value = match reasoning {
        Some(reasoning) => value.with("reasoning", reasoning),
        None => value,
    };
    if is_text(value.get_text("reasoning_effort"), "ultra") {
        Some(value.with("reasoning_effort", text("max")))
    } else if nested {
        Some(value)
    } else {
        None
    }
}

/// The body with the effort `max` in place of `ultra`.
pub fn normalize_ultra_reasoning_effort(body: Vec<u8>) -> (result: Vec<u8>)
    ensures
        result@ == changed_body(
            body@,
            match parsed_json(body@) {
                Ok(value) => without_ultra(value),
                Err(_) => None,
            },
        ),
{
    match parse_json(body.as_slice()) {
        Ok(value) => match replace_ultra_effort(value) {
            Some(changed) => render_bytes(&changed),
            None => body,
        },
        Err(_) => body,
    }
}

proof fn lemma_without_field(value: JsonView, key: Seq<char>, wanted: Seq<char>)
    ensures
        value is Object ==> value.without(key) is Object,
        value.without(key).get(wanted) == (if key == wanted && value is Object {
            None
        } else {
            value.get(wanted)
        }),
{
    if let JsonView::Object(fields) = value {
        if key == wanted {
            law_removed_is_gone(fields, key);
        } else {
            law_remove_keeps_others(fields, key, wanted);
        }
    }
}

/// The fields of a request that the official service refuses.
pub open spec fn is_refused(name: Seq<char>) -> bool {
    ||| name == "max_output_tokens"@
    ||| name == "max_completion_tokens"@
    ||| name == "temperature"@
    ||| name == "top_p"@
    ||| name == "truncation"@
    ||| name == "user"@
    ||| name == "context_management"@
}

proof fn lemma_without_refused(value: JsonView, wanted: Seq<char>)
    requires
        value is Object,
    ensures
        without_refused(value) is Object,
        without_refused(value).get(wanted) == (if is_refused(wanted) {
            None
        } else {
            value.get(wanted)
        }),
{
    let a = value.without("max_output_tokens"@);
    let b = a.without("max_completion_tokens"@);
    let c = b.without("temperature"@);
    let d = c.without("top_p"@);
    let e = d.without("truncation"@);
    let f = e.without("user"@);
    lemma_without_field(value, "max_output_tokens"@, wanted);
    lemma_without_field(a, "max_completion_tokens"@, wanted);
    lemma_without_field(b, "temperature"@, wanted);
    lemma_without_field(c, "top_p"@, wanted);
    lemma_without_field(d, "truncation"@, wanted);
    lemma_without_field(e, "user"@, wanted);
    lemma_without_field(f, "context_management"@, wanted);
}

/// A field of a request as the official service takes it, stage by stage.
proof fn lemma_official_field(value: JsonView, session: Option<Seq<char>>, wanted: Seq<char>)
    requires
        value is Object,
    ensures
        ({
            let made = official_request(value, session);
            &&& made is Object
            &&& is_refused(wanted) ==> made.get(wanted) is None
            &&& wanted == "store"@ ==> made.get(wanted) == Some(JsonView::Bool(false))
            &&& wanted == "stream"@ ==> made.get(wanted) == Some(JsonView::Bool(true))
            &&& wanted == "service_tier"@ ==> made.get(wanted) == (match value.get_text(
                "service_tier"@,
            ) {
                Some(tier) => if tier == "priority"@ {
                    value.get(wanted)
                } else {
                    None
                },
                None => value.get(wanted),
            })
            &&& wanted == "parallel_tool_calls"@ ==> made.get(wanted) == (if value.get(
                wanted,
            ) is Some {
                value.get(wanted)
            } else {
                Some(JsonView::Bool(true))
            })
            &&& wanted == "prompt_cache_key"@ ==> made.get(wanted) == (if value.get(
                wanted,
            ) is Some {
                value.get(wanted)
            } else {
                match session {
                    Some(session) => Some(JsonView::Text(session)),
                    None => None,
                }
            })
            &&& !is_refused(wanted) && wanted != "store"@ && wanted != "stream"@ && wanted
                != "service_tier"@ && wanted != "parallel_tool_calls"@ && wanted
                != "prompt_cache_key"@ && wanted != "include"@ && wanted != "input"@ ==> made.get(
                wanted,
            ) == value.get(wanted)
            &&& wanted == "include"@ ==> made.get(wanted) == with_encrypted_reasoning(value).get(
                wanted,
            )
            &&& wanted == "input"@ ==> made.get(wanted) == with_developers(
                with_input_list(value),
            ).get(wanted)
        }),
{
    broadcast use lemma_with_field;

    reveal_strlit("max_output_tokens");
    reveal_strlit("max_completion_tokens");
    reveal_strlit("temperature");
    reveal_strlit("top_p");
    reveal_strlit("truncation");
    reveal_strlit("user");
    reveal_strlit("context_management");
    reveal_strlit("store");
    reveal_strlit("stream");
    reveal_strlit("service_tier");
    reveal_strlit("parallel_tool_calls");
    reveal_strlit("prompt_cache_key");
    reveal_strlit("include");
    reveal_strlit("input");
    assert("max_output_tokens"@.len() == 17);
    assert("max_completion_tokens"@.len() == 21);
    assert("temperature"@.len() == 11);
    assert("top_p"@.len() == 5);
    assert("truncation"@.len() == 10);
    assert("user"@.len() == 4);
    assert("context_management"@.len() == 18);
    assert("store"@.len() == 5);
    assert("stream"@.len() == 6);
    assert("service_tier"@.len() == 12);
    assert("parallel_tool_calls"@.len() == 19);
    assert("prompt_cache_key"@.len() == 16);
    assert("include"@.len() == 7);
    assert("input"@.len() == 5);
    assert("top_p"@[0] != "store"@[0]);
    assert("top_p"@[0] != "input"@[0]);
    assert("store"@[0] != "input"@[0]);
    let streamed = value.with("store"@, JsonView::Bool(false)).with("stream"@, JsonView::Bool(true));
    lemma_without_refused(streamed, wanted);
    lemma_without_refused(streamed, "service_tier"@);
    lemma_without_refused(streamed, "parallel_tool_calls"@);
    lemma_without_refused(streamed, "prompt_cache_key"@);
    lemma_without_refused(streamed, "include"@);
    lemma_without_refused(streamed, "input"@);
    let cleaned = without_refused(streamed);
    lemma_without_field(cleaned, "service_tier"@, wanted);
    lemma_without_field(cleaned, "service_tier"@, "parallel_tool_calls"@);
    lemma_without_field(cleaned, "service_tier"@, "prompt_cache_key"@);
    lemma_without_field(cleaned, "service_tier"@, "include"@);
    lemma_without_field(cleaned, "service_tier"@, "input"@);
    let allowed = with_allowed_tier(cleaned);
    let parallel = with_default(allowed, "parallel_tool_calls"@, JsonView::Bool(true));
    let keyed = match session {
        Some(session) => with_default(parallel, "prompt_cache_key"@, JsonView::Text(session)),
        None => parallel,
    };
    assert(keyed.get("include"@) == value.get("include"@));
    assert(keyed.get("input"@) == value.get("input"@));
    let asking = with_encrypted_reasoning(keyed);
    assert(asking.get("input"@) == value.get("input"@));
    let listed = with_input_list(asking);
    assert(listed.get("input"@) == with_input_list(value).get("input"@));
}

/// A request for a response goes to the official service as a stream that is not
/// stored there. What the service refuses is left out, and so is a service tier
/// other than `priority`; a key for the prompt cache is the session where the
/// request names none. What else the request says stays as it is.
pub proof fn law_official_requests_keep_what_is_taken(
    value: JsonView,
    session: Option<Seq<char>>,
    name: Seq<char>,
)
    requires
        value is Object,
    ensures
        ({
            let made = official_request(value, session);
            &&& made.get("store"@) == Some(JsonView::Bool(false))
            &&& made.get("stream"@) == Some(JsonView::Bool(true))
            &&& made.get("max_output_tokens"@) is None && made.get("max_completion_tokens"@) is None
            &&& made.get("temperature"@) is None && made.get("top_p"@) is None
            &&& made.get("truncation"@) is None && made.get("user"@) is None
            &&& made.get("context_management"@) is None
            &&& value.get_text("service_tier"@) == Some("priority"@) ==> made.get_text(
                "service_tier"@,
            ) == Some("priority"@)
            &&& value.get_text("service_tier"@) is Some && value.get_text("service_tier"@) != Some(
                "priority"@,
            ) ==> made.get("service_tier"@) is None
            &&& value.get("prompt_cache_key"@) is None && session is Some ==> made.get_text(
                "prompt_cache_key"@,
            ) == session
            &&& value.get("prompt_cache_key"@) is Some ==> made.get("prompt_cache_key"@)
                == value.get("prompt_cache_key"@)
            &&& name == "model"@ || name == "instructions"@ || name == "tools"@ || name
                == "tool_choice"@ || name == "reasoning"@ || name == "text"@ || name
                == "previous_response_id"@ ==> made.get(name) == value.get(name)
        }),
{
    reveal_strlit("max_output_tokens");
    reveal_strlit("max_completion_tokens");
    reveal_strlit("temperature");
    reveal_strlit("top_p");
    reveal_strlit("truncation");
    reveal_strlit("user");
    reveal_strlit("context_management");
    reveal_strlit("store");
    reveal_strlit("stream");
    reveal_strlit("service_tier");
    reveal_strlit("parallel_tool_calls");
    reveal_strlit("prompt_cache_key");
    reveal_strlit("include");
    reveal_strlit("input");
    reveal_strlit("model");
    reveal_strlit("instructions");
    reveal_strlit("tools");
    reveal_strlit("tool_choice");
    reveal_strlit("reasoning");
    reveal_strlit("text");
    reveal_strlit("previous_response_id");
    assert("max_output_tokens"@.len() == 17);
    assert("max_completion_tokens"@.len() == 21);
    assert("temperature"@.len() == 11);
    assert("top_p"@.len() == 5);
    assert("truncation"@.len() == 10);
    assert("user"@.len() == 4);
    assert("context_management"@.len() == 18);
    assert("store"@.len() == 5);
    assert("stream"@.len() == 6);
    assert("service_tier"@.len() == 12);
    assert("parallel_tool_calls"@.len() == 19);
    assert("prompt_cache_key"@.len() == 16);
    assert("include"@.len() == 7);
    assert("input"@.len() == 5);
    assert("model"@.len() == 5);
    assert("instructions"@.len() == 12);
    assert("tools"@.len() == 5);
    assert("tool_choice"@.len() == 11);
    assert("reasoning"@.len() == 9);
    assert("text"@.len() == 4);
    assert("previous_response_id"@.len() == 20);
    assert("temperature"@[1] != "tool_choice"@[1]);
    assert("top_p"@[0] != "store"@[0]);
    assert("top_p"@[0] != "input"@[0]);
    assert("top_p"@[0] != "model"@[0]);
    assert("top_p"@[2] != "tools"@[2]);
    assert("user"@[0] != "text"@[0]);
    assert("store"@[0] != "input"@[0]);
    assert("store"@[0] != "model"@[0]);
    assert("store"@[0] != "tools"@[0]);
    assert("service_tier"@[0] != "instructions"@[0]);
    assert("input"@[0] != "model"@[0]);
    assert("input"@[0] != "tools"@[0]);
    assert("model"@[0] != "tools"@[0]);
    lemma_official_field(value, session, "store"@);
    lemma_official_field(value, session, "stream"@);
    lemma_official_field(value, session, "max_output_tokens"@);
    lemma_official_field(value, session, "max_completion_tokens"@);
    lemma_official_field(value, session, "temperature"@);
    lemma_official_field(value, session, "top_p"@);
    lemma_official_field(value, session, "truncation"@);
    lemma_official_field(value, session, "user"@);
    lemma_official_field(value, session, "context_management"@);
    lemma_official_field(value, session, "service_tier"@);
    lemma_official_field(value, session, "prompt_cache_key"@);
    lemma_official_field(value, session, name);
}

/// An official request always asks for encrypted reasoning, beside what it asks
/// for itself.
pub proof fn law_official_requests_ask_for_reasoning(
    value: JsonView,
    session: Option<Seq<char>>,
    i: int,
)
    requires
        value is Object,
        value.get("include"@) matches Some(asked) ==> asked is Array,
    ensures
        official_request(value, session).get("include"@) matches Some(JsonView::Array(items)) && {
            &&& items.contains(JsonView::Text("reasoning.encrypted_content"@))
            &&& value.get("include"@) matches Some(JsonView::Array(own)) ==> (0 <= i < own.len()
                ==> items.contains(own[i]))
        },
{
    broadcast use lemma_with_field;

    lemma_official_field(value, session, "include"@);
    let wanted = JsonView::Text("reasoning.encrypted_content"@);
    match value.get("include"@) {
        Some(JsonView::Array(own)) => {
            lemma_lists_text(own, "reasoning.encrypted_content"@, own.len() as int);
            let more = own.push(wanted);
            assert(more[own.len() as int] == wanted);
            if 0 <= i < own.len() {
                assert(more[i] == own[i]);
                assert(own.contains(own[i]));
            }
        },
        _ => {
            let more = seq![wanted];
            assert(more[0] == wanted);
        },
    }
}

proof fn lemma_lists_text(items: Seq<JsonView>, wanted: Seq<char>, count: int)
    requires
        count <= items.len(),
    ensures
        lists_text(items, wanted, count) ==> items.contains(JsonView::Text(wanted)),
    decreases count,
{
    if 0 < count {
        lemma_lists_text(items, wanted, count - 1);
        if items[count - 1].text() == Some(wanted) {
            assert(items[count - 1] == JsonView::Text(wanted));
        }
    }
}

/// An input that is a text reaches the official service as one message of the
/// user with exactly that text.
pub proof fn law_official_inputs_say_their_text(
    value: JsonView,
    session: Option<Seq<char>>,
    said: Seq<char>,
)
    requires
        value is Object,
        value.get("input"@) == Some(JsonView::Text(said)),
    ensures
        official_request(value, session).get("input"@) matches Some(JsonView::Array(items)) && {
            &&& items.len() == 1
            &&& items[0].get_text("role"@) == Some("user"@)
            &&& items[0].get("content"@) matches Some(JsonView::Array(parts)) && parts.len() == 1
                && parts[0].get_text("type"@) == Some("input_text"@) && parts[0].get_text("text"@)
                == Some(said)
        },
{
    broadcast use {lemma_entry_field, lemma_with_field};

    reveal_strlit("role");
    reveal_strlit("content");
    reveal_strlit("type");
    reveal_strlit("text");
    reveal_strlit("user");
    reveal_strlit("system");
    assert("role"@.len() == 4);
    assert("content"@.len() == 7);
    assert("type"@.len() == 4);
    assert("text"@.len() == 4);
    assert("user"@.len() == 4);
    assert("system"@.len() == 6);
    assert("role"@[0] != "type"@[0]);
    assert("role"@[0] != "text"@[0]);
    assert("role"@[0] != "user"@[0]);
    assert("type"@[1] != "text"@[1]);
    assert("type"@[0] != "user"@[0]);
    assert("text"@[0] != "user"@[0]);
    lemma_official_field(value, session, "input"@);
    let part = obj().entry("type"@, JsonView::Text("input_text"@)).entry(
        "text"@,
        JsonView::Text(said),
    );
    assert(part.get("text"@) == Some(JsonView::Text(said)));
    assert(part.get("type"@) == Some(JsonView::Text("input_text"@)));
    let item = obj().entry("role"@, JsonView::Text("user"@)).entry(
        "content"@,
        JsonView::Array(seq![part]),
    );
    assert(item.get("role"@) == Some(JsonView::Text("user"@)));
    assert(item.get("content"@) == Some(JsonView::Array(seq![part])));
    assert(developer_item(item) == item);
    let listed = with_input_list(value);
    assert(listed.get("input"@) == Some(JsonView::Array(seq![item])));
    let items = Seq::new(1, |i: int| developer_item(seq![item][i]));
    assert(items =~= seq![item]);
    assert(with_developers(listed).get("input"@) == Some(JsonView::Array(items)));
}

/// The items of an input reach the official service, each in its place: what the
/// system says is said by the developer there, and nothing else of them changes.
pub proof fn law_official_inputs_keep_their_items(
    value: JsonView,
    session: Option<Seq<char>>,
    items: Seq<JsonView>,
    i: int,
    name: Seq<char>,
)
    requires
        value is Object,
        value.get("input"@) == Some(JsonView::Array(items)),
        0 <= i < items.len(),
    ensures
        official_request(value, session).get("input"@) matches Some(JsonView::Array(made)) && {
            &&& made.len() == items.len()
            &&& name != "role"@ ==> made[i].get(name) == items[i].get(name)
            &&& made[i].get_text("role"@) == (if items[i].get_text("role"@) == Some("system"@) {
                Some("developer"@)
            } else {
                items[i].get_text("role"@)
            })
        },
{
    broadcast use lemma_with_field;

    lemma_official_field(value, session, "input"@);
    let made = Seq::new(items.len(), |i: int| developer_item(items[i]));
    assert(with_developers(with_input_list(value)).get("input"@) == Some(JsonView::Array(made)));
}

/// The identifier of an input item gets the prefix of its type and keeps what
/// stands behind its own; nothing else of the item changes, and an item of
/// another type, or with the prefix, stays as it is.
pub proof fn law_item_ids_keep_their_suffix(item: JsonView, name: Seq<char>, suffix: Seq<char>)
    ensures
        ({
            let made = normal_item(item);
            &&& name != "id"@ ==> made.get(name) == item.get(name)
            &&& item.get_text("type"@) == Some("reasoning"@) && item.get_text("id"@) == Some(
                "item_"@ + suffix,
            ) ==> made.get_text("id"@) == Some("rs_"@ + suffix)
            &&& item.get_text("type"@) == Some("message"@) && item.get_text("id"@) == Some(
                "item_"@ + suffix,
            ) ==> made.get_text("id"@) == Some("msg_"@ + suffix)
            &&& item.get_text("type"@) == Some("function_call"@) && item.get_text("id"@) == Some(
                "item_"@ + suffix,
            ) ==> made.get_text("id"@) == Some("fc_"@ + suffix)
            &&& item.get_text("type"@) == Some("custom_tool_call"@) && item.get_text("id"@) == Some(
                "item_"@ + suffix,
            ) ==> made.get_text("id"@) == Some("ctc_"@ + suffix)
            &&& item.get("type"@) is None ==> made == item
        }),
{
    broadcast use lemma_with_field;

    reveal_strlit("custom_tool_call");
    reveal_strlit("reasoning");
    reveal_strlit("function_call");
    reveal_strlit("message");
    reveal_strlit("id");
    reveal_strlit("item_");
    reveal_strlit("rs_");
    reveal_strlit("msg_");
    reveal_strlit("fc_");
    reveal_strlit("ctc_");
    assert("custom_tool_call"@.len() == 16);
    assert("reasoning"@.len() == 9);
    assert("function_call"@.len() == 13);
    assert("message"@.len() == 7);
    assert("id"@.len() == 2);
    assert("item_"@.len() == 5);
    assert("rs_"@.len() == 3);
    assert("msg_"@.len() == 4);
    assert("fc_"@.len() == 3);
    assert("ctc_"@.len() == 4);
    assert("rs_"@[0] != "fc_"@[0]);
    assert("msg_"@[0] != "ctc_"@[0]);
    assert("item_"@[0] == 'i' && "rs_"@[0] == 'r' && "msg_"@[0] == 'm');
    assert("fc_"@[0] == 'f' && "ctc_"@[0] == 'c');
    let id = "item_"@ + suffix;
    assert("item_"@[0] != '_' && "item_"@[1] != '_' && "item_"@[2] != '_' && "item_"@[3] != '_');
    assert("item_"@[4] == '_');
    law_texts_are_parted_at_the_first_place(id, '_', 4);
    assert(id.skip(5) =~= suffix);
    assert(id[0] == 'i');
    assert(!begins(id, "rs_"@)) by {
        if begins(id, "rs_"@) {
            assert(id.take(3)[0] == "rs_"@[0]);
        }
    }
    assert(!begins(id, "msg_"@)) by {
        if begins(id, "msg_"@) {
            assert(id.take(4)[0] == "msg_"@[0]);
        }
    }
    assert(!begins(id, "fc_"@)) by {
        if begins(id, "fc_"@) {
            assert(id.take(3)[0] == "fc_"@[0]);
        }
    }
    assert(!begins(id, "ctc_"@)) by {
        if begins(id, "ctc_"@) {
            assert(id.take(4)[0] == "ctc_"@[0]);
        }
    }
}

/// A model goes to a provider under the name that the provider has for it, and
/// under its own where the provider has none; nothing else of the request
/// changes.
pub proof fn law_models_go_under_their_name_at_the_provider(
    value: JsonView,
    map: Seq<(Seq<char>, Seq<char>)>,
    model: Seq<char>,
    place: int,
    name: Seq<char>,
)
    requires
        value.get_text("model"@) == Some(model),
        trim(model) == model,
        model.len() > 0,
    ensures
        ({
            let made = match remodelled(value, map) {
                Some(changed) => changed,
                None => value,
            };
            &&& name != "model"@ ==> made.get(name) == value.get(name)
            &&& 0 <= place < map.len() && map[place].0 == model && (forall|i: int|
                0 <= i < place ==> (#[trigger] map[i]).0 != model) ==> made.get_text("model"@)
                == Some(map[place].1)
            &&& (forall|i: int| 0 <= i < map.len() ==> (#[trigger] map[i]).0 != model) ==> made
                == value
        }),
{
    broadcast use lemma_with_field;

    lemma_mapped(map, model, place);
}

proof fn lemma_mapped(map: Seq<(Seq<char>, Seq<char>)>, model: Seq<char>, place: int)
    ensures
        0 <= place < map.len() && map[place].0 == model && (forall|i: int|
            0 <= i < place ==> (#[trigger] map[i]).0 != model) ==> mapped_model(map, model) == Some(
            map[place].1,
        ),
        (forall|i: int| 0 <= i < map.len() ==> (#[trigger] map[i]).0 != model) ==> mapped_model(
            map,
            model,
        ) is None,
    decreases map.len(),
{
    if map.len() > 0 {
        let rest = map.drop_first();
        lemma_mapped(rest, model, place - 1);
        if map[0].0 != model {
            if 0 < place < map.len() {
                assert(rest[place - 1] == map[place]);
            }
            if forall|i: int| 0 <= i < place ==> (#[trigger] map[i]).0 != model {
                assert forall|i: int| 0 <= i < place - 1 && i < rest.len() implies (
                #[trigger] rest[i]).0 != model by {
                    assert(rest[i] == map[i + 1]);
                }
                if place <= map.len() {
                    assert forall|i: int| 0 <= i < place - 1 implies (#[trigger] rest[i]).0
                        != model by {
                        assert(rest[i] == map[i + 1]);
                    }
                }
            }
            if forall|i: int| 0 <= i < map.len() ==> (#[trigger] map[i]).0 != model {
                assert forall|i: int| 0 <= i < rest.len() implies (#[trigger] rest[i]).0
                    != model by {
                    assert(rest[i] == map[i + 1]);
                }
            }
        }
    }
}

/// The effort `ultra` is asked for as `max`, wherever a request names it; another
/// effort, and all else of the request, stays as it is.
pub proof fn law_ultra_is_asked_for_as_max(value: JsonView, name: Seq<char>)
    ensures
        ({
            let made = match without_ultra(value) {
                Some(changed) => changed,
                None => value,
            };
            let before = text_in(at(value.get("reasoning"@), "effort"@));
            let after = text_in(at(made.get("reasoning"@), "effort"@));
            &&& after == (if before == Some("ultra"@) {
                Some("max"@)
            } else {
                before
            })
            &&& made.get_text("reasoning_effort"@) == (if value.get_text("reasoning_effort"@)
                == Some("ultra"@) {
                Some("max"@)
            } else {
                value.get_text("reasoning_effort"@)
            })
            &&& name != "reasoning"@ && name != "reasoning_effort"@ ==> made.get(name) == value.get(
                name,
            )
        }),
{
    broadcast use lemma_with_field;

    reveal_strlit("reasoning");
    reveal_strlit("reasoning_effort");
    assert("reasoning"@.len() == 9);
    assert("reasoning_effort"@.len() == 16);
}

/// A request for a response goes to the official service as that takes it, and a
/// request that asks for none goes as it came, unless an identifier in it has to
/// be changed. What is not JSON goes as it came.
pub proof fn law_official_bodies_are_what_the_service_takes(
    body: Seq<u8>,
    value: JsonView,
    fault: JsonFault,
    generation: bool,
    session: Option<Seq<char>>,
)
    requires
        value is Object,
        !(value.get("input"@) matches Some(JsonView::Array(_))),
        value.get("response"@) is None,
    ensures
        official_body(body, Ok(value), true, session) == Some(
            encode_utf8(rendered(official_request(value, session))),
        ),
        official_body(body, Ok(value), false, session) == Some(body),
        official_body(body, Err(fault), generation, session) == Some(body),
{
}

/// The items of an input keep their number and their order when their identifiers
/// are changed.
pub proof fn law_items_are_renamed_in_place(value: JsonView, items: Seq<JsonView>, i: int)
    requires
        value is Object,
        value.get("input"@) == Some(JsonView::Array(items)),
        0 <= i < items.len(),
    ensures
        normal_ids(value).0.get("input"@) matches Some(JsonView::Array(made)) && made.len()
            == items.len() && made[i] == normal_item(items[i]),
{
    broadcast use lemma_with_field;

    reveal_strlit("input");
    reveal_strlit("response");
    assert("input"@.len() == 5);
    assert("response"@.len() == 8);
    let own = normal_input(value);
    assert(own.get("input"@) == Some(JsonView::Array(normal_items(items))));
}

/// The items of the input of the response that a request holds are given the
/// identifiers that they need, too, and keep their number and their order.
pub proof fn law_items_of_a_held_response_are_renamed_in_place(
    value: JsonView,
    response: JsonView,
    items: Seq<JsonView>,
    i: int,
)
    requires
        value is Object,
        value.get("input"@) is None,
        value.get("response"@) == Some(response),
        response is Object,
        response.get("input"@) == Some(JsonView::Array(items)),
        0 <= i < items.len(),
    ensures
        normal_ids(value).0.get("response"@) matches Some(held) && held.get("input"@) matches Some(
            JsonView::Array(made),
        ) && made.len() == items.len() && made[i] == normal_item(items[i]),
{
    broadcast use lemma_with_field;

    reveal_strlit("input");
    reveal_strlit("response");
    assert("input"@.len() == 5);
    assert("response"@.len() == 8);
    assert(normal_input(value) == value);
    assert(normal_input(response).get("input"@) == Some(JsonView::Array(normal_items(items))));
}

} // verus!
