//! The clients of the relay, their keys, and the log of their requests.
use base64::Engine;
use crate::digest::{sha256, sha256_digest};
use crate::json::{
    array, ordered, parse_json, parsed_json, readable, render_json, rendered, text, views, Json,
    JsonFault, JsonView, MAX_JSON_LEVELS,
};
use crate::names::{names_in_order, place_name};
use crate::text::{
    chars_of, concat2, concat3, cut, cut_to, decimal, ends, ends_with, lower, lowered, numeral,
    respaced, same, signed_decimal, signed_numeral, spaced, string_view, texts, trim, trim_start,
    trimmed, white_space,
};
use rand::RngCore;
use subtle::ConstantTimeEq;
use vstd::prelude::*;
use vstd::string::*;
use vstd::utf8::*;

verus! {

/// How many scalar values the name of a client may hold.
pub const MAX_CLIENT_NAME_LEN: usize = 80;

/// How many models a client may be limited to.
pub const MAX_ALLOWED_MODELS: usize = 100;

/// How many scalar values the name of a model may hold.
pub const MAX_MODEL_NAME_LEN: usize = 160;

/// How many scalar values of a key tell it apart from others.
pub const API_KEY_PREFIX_LEN: usize = 16;

/// How many scalar values of an error are kept in the log.
pub const MAX_LOG_ERROR_LEN: usize = 800;

/// Where the clients and the log are kept.
#[derive(Debug)]
pub struct ApiServiceStore {
    path: String,
}

impl Clone for ApiServiceStore {
    fn clone(&self) -> (store: Self)
        ensures
            store.view() == self.view(),
    {
        ApiServiceStore { path: self.path.clone() }
    }
}

impl ApiServiceStore {
    /// The path of the database.
    pub closed spec fn view(&self) -> Seq<char> {
        self.path@
    }

    /// The store in the directory where the relay keeps its data.
    pub fn from_config_store(data_dir: &str) -> (store: Self)
        ensures
            store.view() == data_dir@ + (if data_dir@.len() == 0 || ends(data_dir@, "/"@) {
                "relay/api-service.sqlite3"@
            } else {
                "/relay/api-service.sqlite3"@
            }),
    {
        let path = if data_dir.is_empty() || ends_with(data_dir, "/") {
            concat2(data_dir, "relay/api-service.sqlite3")
        } else {
            concat2(data_dir, "/relay/api-service.sqlite3")
        };
        ApiServiceStore { path }
    }

    /// The path of the database.
    pub fn path(&self) -> (path: &str)
        ensures
            path@ == self.view(),
    {
        self.path.as_str()
    }
}

/// A request that is about to be answered.
#[derive(Debug, Clone, Copy)]
pub struct RequestLogStart<'a> {
    pub request_id: &'a str,
    pub method: &'a str,
    pub path: &'a str,
    pub model: Option<&'a str>,
    pub client_id: Option<&'a str>,
}

/// A request that was answered.
#[derive(Debug, Clone, Copy)]
pub struct RequestLogFinish<'a> {
    pub request_id: &'a str,
    pub provider_id: Option<&'a str>,
    pub status_code: Option<u16>,
    pub outcome: &'a str,
    pub attempts: u16,
    pub latency_ms: u64,
    pub error: Option<&'a str>,
}

/// A provider that is about to be tried.
#[derive(Debug, Clone, Copy)]
pub struct RequestAttemptStart<'a> {
    pub request_id: &'a str,
    pub attempt: u16,
    pub provider_id: &'a str,
    pub route_reason: &'a str,
}

/// A provider that was tried.
#[derive(Debug, Clone, Copy)]
pub struct RequestAttemptFinish<'a> {
    pub request_id: &'a str,
    pub attempt: u16,
    pub status_code: Option<u16>,
    pub outcome: &'a str,
    pub latency_ms: u64,
    pub error: Option<&'a str>,
}

/// A digit of base64 in the alphabet for URLs.
pub open spec fn base64_digit(value: int) -> char {
    if value < 26 {
        (65 + value) as char
    } else if value < 52 {
        (71 + value) as char
    } else if value < 62 {
        (value - 4) as char
    } else if value == 62 {
        '-'
    } else {
        '_'
    }
}

/// Bytes in base64 in the alphabet for URLs, without padding.
pub open spec fn base64_url_of(bytes: Seq<u8>) -> Seq<char>
    decreases bytes.len(),
{
    if bytes.len() == 0 {
        seq![]
    } else {
        let a = bytes[0] as int;
        let b = if bytes.len() > 1 {
            bytes[1] as int
        } else {
            0
        };
        let c = if bytes.len() > 2 {
            bytes[2] as int
        } else {
            0
        };
        let digits = Seq::<char>::empty().push(base64_digit(a / 4)).push(
            base64_digit(a % 4 * 16 + b / 16),
        ).push(base64_digit(b % 16 * 4 + c / 64)).push(base64_digit(c % 64));
        if bytes.len() <= 3 {
            digits.take(bytes.len() as int + 1)
        } else {
            digits + base64_url_of(bytes.skip(3))
        }
    }
}

/// `base64::engine::general_purpose::URL_SAFE_NO_PAD` writes bytes in base64
/// with the alphabet for URLs and without padding.
#[verifier::external_body]
fn base64_url(bytes: &[u8]) -> (encoded: String)
    ensures
        encoded@ == base64_url_of(bytes@),
{
    base64::engine::general_purpose::URL_SAFE_NO_PAD.encode(bytes)
}

/// `rand::RngCore::fill_bytes` on the generator of the thread fills a buffer.
/// Which bytes they are depends on chance.
#[verifier::external_body]
fn random_bytes(count: usize) -> (bytes: Vec<u8>)
    ensures
        bytes@.len() == count,
{
    let mut bytes = vec![0; count];
    rand::rng().fill_bytes(&mut bytes);
    bytes
}

/// `subtle::ConstantTimeEq::ct_eq` tells whether two byte strings are equal, in a
/// time that does not depend on where they differ.
#[verifier::external_body]
fn constant_time_equal(left: &[u8], right: &[u8]) -> (equal: bool)
    ensures
        equal == (left@ == right@),
{
    left.ct_eq(right).into()
}

/// The key that a secret gives.
pub open spec fn key_from(secret: Seq<u8>) -> Seq<char> {
    "cc_live_"@ + base64_url_of(secret)
}

/// The key that a secret gives.
pub fn api_key_from(secret: &[u8]) -> (key: String)
    ensures
        key@ == key_from(secret@),
{
    let encoded = base64_url(secret);
    concat2("cc_live_", encoded.as_str())
}

/// A new key, of a secret that chance decides.
pub fn generate_api_key() -> (key: String)
    ensures
        exists|secret: Seq<u8>| secret.len() == 32 && key@ == #[trigger] key_from(secret),
{
    let secret = random_bytes(32);
    let key = api_key_from(secret.as_slice());
    assert(key@ == key_from(secret@));
    key
}

/// The id of a client that is made at a time, in milliseconds.
pub open spec fn client_id_from(millis: i64, suffix: Seq<u8>) -> Seq<char> {
    "client_"@ + signed_numeral(millis) + ("_"@ + lower(base64_url_of(suffix)))
}

/// The id of a client that is made at a time.
pub fn client_id_at(millis: i64, suffix: &[u8]) -> (id: String)
    ensures
        id@ == client_id_from(millis, suffix@),
{
    let encoded = base64_url(suffix);
    let small = lowered(encoded.as_str());
    let end = concat2("_", small.as_str());
    let number = signed_decimal(millis);
    concat3("client_", number.as_str(), end.as_str())
}

/// The id of a client that is made at a time, with an end that chance decides.
pub fn generate_client_id(millis: i64) -> (id: String)
    ensures
        exists|suffix: Seq<u8>|
            suffix.len() == 6 && id@ == #[trigger] client_id_from(millis, suffix),
{
    let suffix = random_bytes(6);
    let id = client_id_at(millis, suffix.as_slice());
    assert(id@ == client_id_from(millis, suffix@));
    id
}

/// What tells a key apart from others.
pub fn key_prefix(api_key: &str) -> (prefix: String)
    ensures
        prefix@ == cut(api_key@, API_KEY_PREFIX_LEN as int),
{
    cut_to(api_key, API_KEY_PREFIX_LEN)
}

/// What is kept of a key.
pub open spec fn key_digest(api_key: Seq<char>) -> Seq<u8> {
    sha256(encode_utf8(api_key))
}

/// What is kept of a key.
pub fn hash_key(api_key: &str) -> (hash: Vec<u8>)
    ensures
        hash@ == key_digest(api_key@),
        hash@.len() == 32,
{
    sha256_digest(api_key.as_bytes())
}

/// Whether a key is the one of which something was kept.
pub fn key_matches(stored_hash: &[u8], api_key: &str) -> (matches: bool)
    ensures
        matches == (stored_hash@ == key_digest(api_key@)),
{
    let hash = hash_key(api_key);
    stored_hash.len() == hash.len() && constant_time_equal(stored_hash, hash.as_slice())
}

/// A key that is looked up: without white space at its ends, where anything is
/// left of it.
pub fn presented_key(api_key: &str) -> (key: Option<String>)
    ensures
        string_view(key) == (if trim(api_key@).len() == 0 {
            None
        } else {
            Some(trim(api_key@))
        }),
{
    let key = trimmed(api_key);
    if key.as_str().is_empty() {
        None
    } else {
        Some(key)
    }
}

/// Why a client cannot be made or changed.
#[derive(Debug)]
pub enum ClientError {
    EmptyId,
    EmptyName,
    NameTooLong,
    TooManyModels,
    ModelNameTooLong(String),
    UnknownClient(String),
}

/// What a `ClientError` holds.
pub ghost enum ClientErrorView {
    EmptyId,
    EmptyName,
    NameTooLong,
    TooManyModels,
    ModelNameTooLong(Seq<char>),
    UnknownClient(Seq<char>),
}

impl View for ClientError {
    type V = ClientErrorView;

    open spec fn view(&self) -> ClientErrorView {
        match self {
            ClientError::EmptyId => ClientErrorView::EmptyId,
            ClientError::EmptyName => ClientErrorView::EmptyName,
            ClientError::NameTooLong => ClientErrorView::NameTooLong,
            ClientError::TooManyModels => ClientErrorView::TooManyModels,
            ClientError::ModelNameTooLong(model) => ClientErrorView::ModelNameTooLong(model@),
            ClientError::UnknownClient(id) => ClientErrorView::UnknownClient(id@),
        }
    }
}

impl ClientErrorView {
    /// The text of the error.
    pub open spec fn message(self) -> Seq<char> {
        match self {
            ClientErrorView::EmptyId => "API client id 不能为空"@,
            ClientErrorView::EmptyName => "API client 名称不能为空"@,
            ClientErrorView::NameTooLong => "API client 名称不能超过 "@ + numeral(
                MAX_CLIENT_NAME_LEN as nat,
                10,
            ) + " 个字符"@,
            ClientErrorView::TooManyModels => "每个 API client 最多允许 "@ + numeral(
                MAX_ALLOWED_MODELS as nat,
                10,
            ) + " 个模型"@,
            ClientErrorView::ModelNameTooLong(model) => "模型名称过长: "@ + model,
            ClientErrorView::UnknownClient(id) => "unknown API client: "@ + id,
        }
    }
}

impl ClientError {
    /// The text of the error.
    pub fn message_text(&self) -> (message: String)
        ensures
            message@ == self@.message(),
    {
        match self {
            ClientError::EmptyId => "API client id 不能为空".to_string(),
            ClientError::EmptyName => "API client 名称不能为空".to_string(),
            ClientError::NameTooLong => {
                let number = decimal(MAX_CLIENT_NAME_LEN as u64);
                concat3("API client 名称不能超过 ", number.as_str(), " 个字符")
            },
            ClientError::TooManyModels => {
                let number = decimal(MAX_ALLOWED_MODELS as u64);
                concat3("每个 API client 最多允许 ", number.as_str(), " 个模型")
            },
            ClientError::ModelNameTooLong(model) => concat2("模型名称过长: ", model.as_str()),
            ClientError::UnknownClient(id) => concat2("unknown API client: ", id.as_str()),
        }
    }
}

/// The name of a client, or why it cannot be one.
pub open spec fn valid_name(name: Seq<char>) -> Result<Seq<char>, ClientErrorView> {
    if trim(name).len() == 0 {
        Err(ClientErrorView::EmptyName)
    } else if trim(name).len() > MAX_CLIENT_NAME_LEN {
        Err(ClientErrorView::NameTooLong)
    } else {
        Ok(trim(name))
    }
}

/// A name, or why there is none.
pub open spec fn name_view(result: Result<String, ClientError>) -> Result<
    Seq<char>,
    ClientErrorView,
> {
    match result {
        Ok(name) => Ok(name@),
        Err(error) => Err(error@),
    }
}

/// The name of a client, or why it cannot be one.
pub fn validate_client_name(name: &str) -> (result: Result<String, ClientError>)
    ensures
        name_view(result) == valid_name(name@),
{
    let name = trimmed(name);
    if name.as_str().is_empty() {
        return Err(ClientError::EmptyName);
    }
    if chars_of(name.as_str()).len() > MAX_CLIENT_NAME_LEN {
        return Err(ClientError::NameTooLong);
    }
    Ok(name)
}

/// The names of a list without white space at their ends, those that are not
/// blank.
pub open spec fn trimmed_names(list: Seq<Seq<char>>) -> Seq<Seq<char>>
    decreases list.len(),
{
    if list.len() == 0 {
        seq![]
    } else if trim(list.last()).len() == 0 {
        trimmed_names(list.drop_last())
    } else {
        trimmed_names(list.drop_last()).push(trim(list.last()))
    }
}

/// The first name of a list, from one place on, that is too long for a model.
pub open spec fn too_long_from(list: Seq<Seq<char>>, from: int) -> Option<Seq<char>>
    decreases list.len() - from,
{
    if !(0 <= from < list.len()) {
        None
    } else if list[from].len() > MAX_MODEL_NAME_LEN {
        Some(list[from])
    } else {
        too_long_from(list, from + 1)
    }
}

/// The models that a client is limited to, in ascending order and each once, or
/// why they cannot be.
pub open spec fn valid_models(list: Seq<Seq<char>>) -> Result<Seq<Seq<char>>, ClientErrorView> {
    let models = names_in_order(trimmed_names(list));
    if models.len() > MAX_ALLOWED_MODELS {
        Err(ClientErrorView::TooManyModels)
    } else {
        match too_long_from(models, 0) {
            Some(model) => Err(ClientErrorView::ModelNameTooLong(model)),
            None => Ok(models),
        }
    }
}

/// Models, or why there are none.
pub open spec fn models_view(result: Result<Vec<String>, ClientError>) -> Result<
    Seq<Seq<char>>,
    ClientErrorView,
> {
    match result {
        Ok(models) => Ok(texts(models@)),
        Err(error) => Err(error@),
    }
}

/// The models that a client is limited to, or why they cannot be.
pub fn normalize_models(models: &Vec<String>) -> (result: Result<Vec<String>, ClientError>)
    ensures
        models_view(result) == valid_models(texts(models@)),
{
    let ghost all = texts(models@);
    let mut kept: Vec<String> = Vec::new();
    let mut index: usize = 0;
    assert(all.take(0) =~= seq![]);
    assert(texts(kept@) =~= names_in_order(trimmed_names(all.take(0))));
    while index < models.len()
        invariant
            index <= models@.len(),
            all == texts(models@),
            texts(kept@) == names_in_order(trimmed_names(all.take(index as int))),
        decreases models@.len() - index,
    {
        let model = trimmed(models[index].as_str());
        proof {
            let more = all.take(index + 1);
            assert(more.drop_last() =~= all.take(index as int));
            assert(more.last() == models@[index as int]@);
            let before = trimmed_names(all.take(index as int));
            if trim(more.last()).len() > 0 {
                assert(before.push(trim(more.last())).drop_last() =~= before);
            }
        }
        if !model.as_str().is_empty() {
            place_name(&mut kept, model.as_str());
        }
        index += 1;
    }
    assert(all.take(index as int) =~= all);
    let ghost names = texts(kept@);
    assert(names.len() == kept@.len());
    if kept.len() > MAX_ALLOWED_MODELS {
        return Err(ClientError::TooManyModels);
    }
    let mut at: usize = 0;
    while at < kept.len()
        invariant
            at <= kept@.len(),
            names == texts(kept@),
            too_long_from(names, 0) == too_long_from(names, at as int),
            names == names_in_order(trimmed_names(texts(models@))),
            names.len() <= MAX_ALLOWED_MODELS,
        decreases kept@.len() - at,
    {
        assert(names[at as int] == kept@[at as int]@);
        if chars_of(kept[at].as_str()).len() > MAX_MODEL_NAME_LEN {
            return Err(ClientError::ModelNameTooLong(kept[at].clone()));
        }
        at += 1;
    }
    Ok(kept)
}

proof fn lemma_none_too_long(list: Seq<Seq<char>>, from: int)
    requires
        0 <= from,
        too_long_from(list, from) is None,
    ensures
        forall|i: int| from <= i < list.len() ==> (#[trigger] list[i]).len() <= MAX_MODEL_NAME_LEN,
    decreases list.len() - from,
{
    if from < list.len() {
        lemma_none_too_long(list, from + 1);
    }
}

/// The models that a client is limited to ascend, are not too many, and none of
/// their names is too long.
pub proof fn law_models_are_within_limits(list: Seq<Seq<char>>)
    ensures
        valid_models(list) matches Ok(models) ==> {
            &&& models.len() <= MAX_ALLOWED_MODELS
            &&& crate::names::ascending(models)
            &&& forall|i: int|
                0 <= i < models.len() ==> (#[trigger] models[i]).len() <= MAX_MODEL_NAME_LEN
        },
{
    let models = names_in_order(trimmed_names(list));
    crate::names::law_names_in_order_ascend(trimmed_names(list));
    if too_long_from(models, 0) is None {
        lemma_none_too_long(models, 0);
    }
}

/// The JSON of a list of names, up to one of them.
pub open spec fn name_items(names: Seq<Seq<char>>, count: int) -> Seq<JsonView>
    decreases count,
{
    if !(0 < count <= names.len()) {
        seq![]
    } else {
        name_items(names, count - 1).push(JsonView::Text(names[count - 1]))
    }
}

proof fn lemma_name_items(names: Seq<Seq<char>>, count: int)
    requires
        0 <= count <= names.len(),
    ensures
        name_items(names, count).len() == count,
        forall|i: int|
            0 <= i < count ==> (#[trigger] name_items(names, count)[i]) == JsonView::Text(names[i]),
    decreases count,
{
    if count > 0 {
        lemma_name_items(names, count - 1);
    }
}

/// The texts of a list of values, none where one of them is no text.
pub open spec fn all_texts(items: Seq<JsonView>) -> Seq<Seq<char>> {
    if forall|i: int| 0 <= i < items.len() ==> (#[trigger] items[i]) is Text {
        Seq::new(items.len(), |i: int| items[i]->Text_0)
    } else {
        seq![]
    }
}

/// The names that a text holds: those of a JSON list of texts, none in any other
/// text.
pub open spec fn names_in(stored: Seq<char>) -> Seq<Seq<char>> {
    match parsed_json(encode_utf8(stored)) {
        Ok(JsonView::Array(items)) => all_texts(items),
        _ => seq![],
    }
}

/// The models that a client is limited to, as they were written down.
pub fn stored_models(stored: &str) -> (models: Vec<String>)
    ensures
        texts(models@) == names_in(stored@),
{
    let nothing: Vec<String> = Vec::new();
    assert(texts(nothing@) =~= seq![]);
    let value = match parse_json(stored.as_bytes()) {
        Ok(value) => value,
        Err(_) => {
            return nothing;
        },
    };
    let items = match value.as_array() {
        Some(items) => items,
        None => {
            return nothing;
        },
    };
    let ghost all = views(items@);
    assert(parsed_json(encode_utf8(stored@)) == Ok::<JsonView, JsonFault>(JsonView::Array(all)));
    let mut models: Vec<String> = Vec::new();
    let mut index: usize = 0;
    while index < items.len()
        invariant
            index <= items@.len(),
            all == views(items@),
            names_in(stored@) == all_texts(all),
            texts(nothing@) =~= seq![],
            models@.len() == index,
            forall|i: int|
                0 <= i < index ==> (#[trigger] all[i]) is Text && models@[i]@ == all[i]->Text_0,
        decreases items@.len() - index,
    {
        assert(all[index as int] == items@[index as int]@);
        match items[index].as_text() {
            Some(model) => {
                models.push(model.to_owned());
            },
            None => {
                assert(!(all[index as int] is Text));
                return nothing;
            },
        }
        index += 1;
    }
    assert(texts(models@) =~= all_texts(all));
    models
}

/// A list of names as JSON text, which is read back as the same names.
pub fn names_json(names: &Vec<String>) -> (result: String)
    ensures
        result@ == rendered(JsonView::Array(name_items(texts(names@), names@.len() as int))),
        names_in(result@) == texts(names@),
{
    let ghost all = texts(names@);
    let mut items: Vec<Json> = Vec::new();
    let mut index: usize = 0;
    assert(views(items@) =~= name_items(all, 0));
    while index < names.len()
        invariant
            index <= names@.len(),
            all == texts(names@),
            views(items@) == name_items(all, index as int),
        decreases names@.len() - index,
    {
        let ghost before = views(items@);
        assert(all[index as int] == names@[index as int]@);
        let item = text(names[index].as_str());
        let ghost view = item@;
        items.push(item);
        assert(views(items@) =~= before.push(view));
        index += 1;
    }
    proof {
        let list = name_items(all, all.len() as int);
        lemma_name_items(all, all.len() as int);
        assert forall|i: int| 0 <= i < list.len() implies ordered(#[trigger] list[i]) == list[i]
            && readable(list[i], MAX_JSON_LEVELS - 1) by {
            assert(list[i] == JsonView::Text(all[i]));
        }
        assert(ordered(JsonView::Array(list))->Array_0 =~= list);
        assert(readable(JsonView::Array(list), MAX_JSON_LEVELS as int));
        assert(all_texts(list) =~= all);
    }
    render_json(&array(items))
}

/// What is written down of a client.
#[derive(Debug)]
pub struct ClientRecord {
    pub id: String,
    pub name: String,
    pub key_prefix: String,
    pub key_hash: Vec<u8>,
    /// The models that it is limited to, as JSON.
    pub allowed_models: String,
}

/// What is written down of a key.
pub open spec fn keeps_key(record: ClientRecord, api_key: Seq<char>) -> bool {
    record.key_prefix@ == cut(api_key, API_KEY_PREFIX_LEN as int) && record.key_hash@ == key_digest(
        api_key,
    )
}

/// Whether a key that is presented is that of a client.
pub open spec fn authenticates(record: ClientRecord, presented: Seq<char>) -> bool {
    trim(presented).len() > 0 && keeps_key(record, trim(presented))
}

proof fn lemma_base64_is_dark(bytes: Seq<u8>)
    ensures
        bytes.len() > 0 ==> base64_url_of(bytes).len() > 0,
        forall|i: int|
            0 <= i < base64_url_of(bytes).len() ==> !white_space(
                #[trigger] base64_url_of(bytes)[i],
            ),
    decreases bytes.len(),
{
    if bytes.len() > 3 {
        lemma_base64_is_dark(bytes.skip(3));
    }
}

/// A key that was made for a client is the client's, and no other key is unless
/// it has the same digest.
pub proof fn law_generated_keys_authenticate(
    record: ClientRecord,
    secret: Seq<u8>,
    other: Seq<char>,
)
    requires
        keeps_key(record, key_from(secret)),
    ensures
        authenticates(record, key_from(secret)),
        authenticates(record, other) ==> key_digest(trim(other)) == key_digest(key_from(secret)),
{
    lemma_keys_are_trimmed(secret);
}

/// A client as it is written down, by what decides whether a key is its own.
#[derive(Debug)]
pub struct StoredClient {
    pub id: String,
    pub enabled: bool,
    pub key_prefix: String,
    pub key_hash: Vec<u8>,
    /// How many requests it has made.
    pub request_count: u64,
}

/// Whether a client was given a key last.
pub open spec fn keyed_by(client: StoredClient, api_key: Seq<char>) -> bool {
    client.key_prefix@ == cut(api_key, API_KEY_PREFIX_LEN as int) && client.key_hash@ == key_digest(
        api_key,
    )
}

/// Whether a key that is presented passes as a client: the client is switched
/// on, the key is not blank, and it is the one that the client was given last.
pub open spec fn passes_as(client: StoredClient, presented: Seq<char>) -> bool {
    client.enabled && trim(presented).len() > 0 && keyed_by(client, trim(presented))
}

/// The client that a key passes as, of the one that was found by its prefix, with
/// the request counted; none where there is no client or the key does not pass.
pub fn authenticate(found: Option<StoredClient>, api_key: &str) -> (client: Option<StoredClient>)
    requires
        found matches Some(client) ==> client.request_count < u64::MAX,
    ensures
        match (found, client) {
            (Some(before), Some(after)) => {
                &&& passes_as(before, api_key@)
                &&& after.id@ == before.id@
                &&& after.enabled == before.enabled
                &&& after.key_prefix@ == before.key_prefix@
                &&& after.key_hash@ == before.key_hash@
                &&& after.request_count == before.request_count + 1
            },
            (Some(before), None) => !passes_as(before, api_key@),
            (None, Some(_)) => false,
            (None, None) => true,
        },
{
    let key = match presented_key(api_key) {
        Some(key) => key,
        None => {
            return None;
        },
    };
    match found {
        Some(client) => {
            let prefix = key_prefix(key.as_str());
            if client.enabled && same(client.key_prefix.as_str(), prefix.as_str()) && key_matches(
                client.key_hash.as_slice(),
                key.as_str(),
            ) {
                Some(StoredClient { request_count: client.request_count + 1, ..client })
            } else {
                None
            }
        },
        None => None,
    }
}

/// What is changed of a client that gets a new key.
#[derive(Debug)]
pub struct KeyChange {
    pub id: String,
    pub key_prefix: String,
    pub key_hash: Vec<u8>,
}

/// What is changed of a client that gets a new key.
pub fn key_change(id: &str, api_key: &str) -> (change: KeyChange)
    ensures
        change.id@ == trim(id@),
        change.key_prefix@ == cut(api_key@, API_KEY_PREFIX_LEN as int),
        change.key_hash@ == key_digest(api_key@),
{
    KeyChange { id: trimmed(id), key_prefix: key_prefix(api_key), key_hash: hash_key(api_key) }
}

/// A client after a change of its key. Other clients stay as they are.
pub open spec fn rekeyed(client: StoredClient, change: KeyChange) -> StoredClient {
    if client.id@ == change.id@ {
        StoredClient { key_prefix: change.key_prefix, key_hash: change.key_hash, ..client }
    } else {
        client
    }
}

/// After a client was given a new key, the new key passes as the same client and
/// the one before does not, unless both have the same digest.
pub proof fn law_rotation_invalidates_the_previous_key(
    client: StoredClient,
    change: KeyChange,
    old_secret: Seq<u8>,
    new_secret: Seq<u8>,
)
    requires
        client.enabled,
        keyed_by(client, key_from(old_secret)),
        change.id@ == client.id@,
        change.key_prefix@ == cut(key_from(new_secret), API_KEY_PREFIX_LEN as int),
        change.key_hash@ == key_digest(key_from(new_secret)),
    ensures
        passes_as(client, key_from(old_secret)),
        passes_as(rekeyed(client, change), key_from(new_secret)),
        rekeyed(client, change).id@ == client.id@,
        rekeyed(client, change).request_count == client.request_count,
        key_digest(key_from(old_secret)) != key_digest(key_from(new_secret)) ==> !passes_as(
            rekeyed(client, change),
            key_from(old_secret),
        ),
{
    lemma_keys_are_trimmed(old_secret);
    lemma_keys_are_trimmed(new_secret);
}

/// A client that is switched off is nobody's, and a blank key passes as no client.
pub proof fn law_blank_and_disabled_keys_do_not_pass(client: StoredClient, presented: Seq<char>)
    requires
        !client.enabled || trim(presented).len() == 0,
    ensures
        !passes_as(client, presented),
{
}

proof fn lemma_keys_are_trimmed(secret: Seq<u8>)
    ensures
        trim(key_from(secret)) == key_from(secret),
        key_from(secret).len() > 0,
{
    reveal_strlit("cc_live_");
    let key = key_from(secret);
    lemma_base64_is_dark(secret);
    let encoded = base64_url_of(secret);
    assert(key[0] == 'c');
    assert(trim_start(key) == key);
    if encoded.len() > 0 {
        assert(key.last() == encoded.last());
    }
}

proof fn lemma_base64_length(bytes: Seq<u8>)
    ensures
        base64_url_of(bytes).len() == (bytes.len() * 4 + 2) / 3,
    decreases bytes.len(),
{
    if bytes.len() > 3 {
        lemma_base64_length(bytes.skip(3));
    }
}

/// What is written down of a key that was made for a client is its digest and
/// its first sixteen scalar values, of which all but eight are the same for every
/// key; the other thirty-five are not written down.
pub proof fn law_records_hold_only_a_prefix(record: ClientRecord, secret: Seq<u8>)
    requires
        secret.len() == 32,
        keeps_key(record, key_from(secret)),
    ensures
        key_from(secret).len() == 51,
        record.key_prefix@ == key_from(secret).take(16),
        record.key_prefix@.take(8) == "cc_live_"@,
{
    reveal_strlit("cc_live_");
    lemma_base64_length(secret);
    assert(key_from(secret).take(16).take(8) =~= "cc_live_"@);
}

/// A client that is made with an id and a key.
pub fn client_record(name: &str, allowed_models: &Vec<String>, id: String, api_key: &str) -> (result:
    Result<ClientRecord, ClientError>)
    ensures
        match (valid_name(name@), valid_models(texts(allowed_models@)), result) {
            (Err(error), _, Err(actual)) => actual@ == error,
            (Ok(_), Err(error), Err(actual)) => actual@ == error,
            (Ok(valid), Ok(models), Ok(record)) => {
                &&& record.id@ == id@
                &&& record.name@ == valid
                &&& keeps_key(record, api_key@)
                &&& record.allowed_models@ == rendered(
                    JsonView::Array(name_items(models, models.len() as int)),
                )
                &&& names_in(record.allowed_models@) == models
            },
            _ => false,
        },
{
    let name = match validate_client_name(name) {
        Ok(name) => name,
        Err(error) => {
            return Err(error);
        },
    };
    let models = match normalize_models(allowed_models) {
        Ok(models) => models,
        Err(error) => {
            return Err(error);
        },
    };
    Ok(
        ClientRecord {
            id,
            name,
            key_prefix: key_prefix(api_key),
            key_hash: hash_key(api_key),
            allowed_models: names_json(&models),
        },
    )
}

/// What is changed of a client.
#[derive(Debug)]
pub struct ClientChange {
    pub id: String,
    pub name: String,
    pub allowed_models: String,
}

/// What is changed of a client, or why it cannot be.
pub fn client_change(id: &str, name: &str, allowed_models: &Vec<String>) -> (result: Result<
    ClientChange,
    ClientError,
>)
    ensures
        match (trim(id@).len() == 0, valid_name(name@), valid_models(texts(allowed_models@)), result) {
            (true, _, _, Err(actual)) => actual@ == ClientErrorView::EmptyId,
            (false, Err(error), _, Err(actual)) => actual@ == error,
            (false, Ok(_), Err(error), Err(actual)) => actual@ == error,
            (false, Ok(valid), Ok(models), Ok(change)) => {
                &&& change.id@ == trim(id@)
                &&& change.name@ == valid
                &&& change.allowed_models@ == rendered(
                    JsonView::Array(name_items(models, models.len() as int)),
                )
                &&& names_in(change.allowed_models@) == models
            },
            _ => false,
        },
{
    let id = trimmed(id);
    if id.as_str().is_empty() {
        return Err(ClientError::EmptyId);
    }
    let name = match validate_client_name(name) {
        Ok(name) => name,
        Err(error) => {
            return Err(error);
        },
    };
    let models = match normalize_models(allowed_models) {
        Ok(models) => models,
        Err(error) => {
            return Err(error);
        },
    };
    Ok(ClientChange { id, name, allowed_models: names_json(&models) })
}

/// Whether a change reached a client, by how many it changed.
pub fn changed_client(changed: usize, id: &str) -> (result: Result<(), ClientError>)
    ensures
        match result {
            Ok(_) => changed > 0,
            Err(error) => changed == 0 && error@ == ClientErrorView::UnknownClient(id@),
        },
{
    if changed == 0 {
        Err(ClientError::UnknownClient(id.to_string()))
    } else {
        Ok(())
    }
}

/// The share of a total in whole percent; 0 of nothing.
pub fn percentage(successful: u64, total: u64) -> (percent: u8)
    ensures
        total == 0 ==> percent == 0,
        total > 0 && successful * 100 <= u64::MAX ==> percent == if successful * 100 / total as int
            > 100 {
            100
        } else {
            successful * 100 / total as int
        },
        total > 0 && successful * 100 > u64::MAX ==> percent == if u64::MAX / total > 100 {
            100
        } else {
            (u64::MAX / total) as int
        },
{
    if total == 0 {
        return 0;
    }
    let hundredfold: u64 = if successful <= u64::MAX / 100 {
        successful * 100
    } else {
        u64::MAX
    };
    let share: u64 = hundredfold / total;
    if share > 100 {
        100
    } else {
        share as u8
    }
}

/// What a log says of a request: when it came, if that can be read, and what
/// came of it.
#[derive(Debug)]
pub struct RequestOutcome {
    pub time_is_valid: bool,
    pub outcome: String,
}

/// What a `RequestOutcome` holds.
#[verifier::ext_equal]
pub struct RequestOutcomeView {
    pub time_is_valid: bool,
    pub outcome: Seq<char>,
}

impl View for RequestOutcome {
    type V = RequestOutcomeView;

    open spec fn view(&self) -> RequestOutcomeView {
        RequestOutcomeView { time_is_valid: self.time_is_valid, outcome: self.outcome@ }
    }
}

/// What a list of outcomes holds.
pub open spec fn outcome_views(list: Seq<RequestOutcome>) -> Seq<RequestOutcomeView> {
    Seq::new(list.len(), |i: int| list[i]@)
}

/// How a client fares: where in its log its last request, success and failure
/// stand, and how many failures there were since the success.
#[derive(Debug, Clone, Copy, PartialEq, Eq, Structural)]
pub struct ClientHealth {
    pub last_request: Option<usize>,
    pub last_success: Option<usize>,
    pub last_failure: Option<usize>,
    pub consecutive_failures: u32,
}

/// Whether a request was answered.
pub open spec fn went_well(outcome: Seq<char>) -> bool {
    outcome == "succeeded"@ || outcome == "local"@
}

/// Whether a request failed.
pub open spec fn went_wrong(outcome: Seq<char>) -> bool {
    !went_well(outcome) && outcome != "processing"@
}

/// The place of the first request that was answered, from one place on, or of one
/// whose time cannot be read.
pub open spec fn first_stop(list: Seq<RequestOutcomeView>, from: int) -> int
    decreases list.len() - from,
{
    if !(0 <= from < list.len()) {
        list.len() as int
    } else if !list[from].time_is_valid || went_well(list[from].outcome) {
        from
    } else {
        first_stop(list, from + 1)
    }
}

/// How many of the first requests of a log failed.
pub open spec fn failures_before(list: Seq<RequestOutcomeView>, count: int) -> nat
    decreases count,
{
    if !(0 < count <= list.len()) {
        0
    } else {
        failures_before(list, count - 1) + if went_wrong(list[count - 1].outcome) {
            1nat
        } else {
            0nat
        }
    }
}

/// The place of the first failure among the first requests of a log.
pub open spec fn first_failure(list: Seq<RequestOutcomeView>, count: int) -> Option<int>
    decreases count,
{
    if !(0 < count <= list.len()) {
        None
    } else {
        match first_failure(list, count - 1) {
            Some(index) => Some(index),
            None => if went_wrong(list[count - 1].outcome) {
                Some(count - 1)
            } else {
                None
            },
        }
    }
}

/// A place as a number that contracts speak of.
pub open spec fn row_view(place: Option<usize>) -> Option<int> {
    match place {
        Some(index) => Some(index as int),
        None => None,
    }
}

proof fn lemma_failures_are_few(list: Seq<RequestOutcomeView>, count: int)
    requires
        0 <= count <= list.len(),
    ensures
        failures_before(list, count) <= count,
    decreases count,
{
    if count > 0 {
        lemma_failures_are_few(list, count - 1);
    }
}

/// How a client fares by its log, the last request first. The log is read up to
/// the first request that was answered; one whose time cannot be read is an
/// error, and its place is returned.
pub fn client_health(log: &Vec<RequestOutcome>) -> (result: Result<ClientHealth, usize>)
    requires
        log@.len() <= u32::MAX,
    ensures
        ({
            let all = outcome_views(log@);
            let stop = first_stop(all, 0);
            match result {
                Err(index) => index == stop && stop < all.len() && !all[stop].time_is_valid,
                Ok(health) => {
                    &&& stop < all.len() ==> all[stop].time_is_valid
                    &&& health.last_request == (if all.len() > 0 {
                        Some(0usize)
                    } else {
                        None
                    })
                    &&& row_view(health.last_success) == (if stop < all.len() {
                        Some(stop)
                    } else {
                        None
                    })
                    &&& row_view(health.last_failure) == first_failure(all, stop)
                    &&& health.consecutive_failures == failures_before(all, stop)
                },
            }
        }),
{
    let ghost all = outcome_views(log@);
    let mut health = ClientHealth {
        last_request: None,
        last_success: None,
        last_failure: None,
        consecutive_failures: 0,
    };
    let mut index: usize = 0;
    while index < log.len()
        invariant
            index <= log@.len(),
            log@.len() <= u32::MAX,
            all == outcome_views(log@),
            first_stop(all, 0) == first_stop(all, index as int),
            health.last_request == (if index > 0 {
                Some(0usize)
            } else {
                None
            }),
            health.last_success is None,
            row_view(health.last_failure) == first_failure(all, index as int),
            health.consecutive_failures == failures_before(all, index as int),
        decreases log@.len() - index,
    {
        assert(all[index as int] == log@[index as int]@);
        if !log[index].time_is_valid {
            return Err(index);
        }
        if health.last_request.is_none() {
            health.last_request = Some(index);
        }
        let outcome = log[index].outcome.as_str();
        if same(outcome, "succeeded") || same(outcome, "local") {
            health.last_success = Some(index);
            return Ok(health);
        }
        if !same(outcome, "processing") {
            if health.last_failure.is_none() {
                health.last_failure = Some(index);
            }
            proof {
                lemma_failures_are_few(all, index as int);
            }
            health.consecutive_failures = health.consecutive_failures + 1;
        }
        index += 1;
    }
    Ok(health)
}

/// The word for how a client fares.
pub fn client_health_status(health: &ClientHealth, enabled: bool) -> (status: &'static str)
    ensures
        status@ == (if !enabled {
            "disabled"@
        } else if health.consecutive_failures >= 3 {
            "degraded"@
        } else if health.last_request is Some {
            "healthy"@
        } else {
            "idle"@
        }),
{
    if !enabled {
        "disabled"
    } else if health.consecutive_failures >= 3 {
        "degraded"
    } else if health.last_request.is_some() {
        "healthy"
    } else {
        "idle"
    }
}

/// A span of days up to today.
#[derive(Debug, Clone, Copy, PartialEq, Eq, Structural)]
pub enum Period {
    Today,
    Week,
    Month,
}

/// How many days before today a period begins, given how many days ago the last
/// Monday was and which day of the month it is: a week begins on Monday, a month
/// on its first day.
pub fn days_into_period(period: Period, days_from_monday: u32, day_of_month: u32) -> (days: u32)
    ensures
        days == (match period {
            Period::Today => 0u32,
            Period::Week => days_from_monday,
            Period::Month => if day_of_month > 0 {
                (day_of_month - 1) as u32
            } else {
                0u32
            },
        }),
{
    match period {
        Period::Today => 0,
        Period::Week => days_from_monday,
        Period::Month => if day_of_month > 0 {
            day_of_month - 1
        } else {
            0
        },
    }
}

/// An error on one line, cut where it is long, given it without the secrets in it.
pub fn compact_log_error(redacted: &str) -> (line: String)
    ensures
        line@ == cut(spaced(redacted@), MAX_LOG_ERROR_LEN as int),
{
    let line = respaced(redacted);
    cut_to(line.as_str(), MAX_LOG_ERROR_LEN)
}

/// A time: seconds since the Unix epoch, and nanoseconds of the second.
#[derive(Debug, Clone, Copy, PartialEq, Eq, Structural)]
pub struct UtcTime {
    pub seconds: i64,
    pub nanos: u32,
}

/// What `rfc3339_millis` writes.
pub uninterp spec fn rfc3339_text(seconds: i64, nanos: u32) -> Option<Seq<char>>;

/// What `read_rfc3339` reads.
pub uninterp spec fn parsed_rfc3339(chars: Seq<char>) -> Result<(i64, u32), Seq<char>>;

/// `chrono::DateTime::from_timestamp` and `chrono::DateTime::to_rfc3339_opts`
/// write a time as text, in milliseconds and with `Z` for its zone; nothing for
/// a time that chrono cannot hold.
#[verifier::external_body]
fn rfc3339_millis(seconds: i64, nanos: u32) -> (written: Option<String>)
    ensures
        string_view(written) == rfc3339_text(seconds, nanos),
{
    chrono::DateTime::from_timestamp(seconds, nanos)
        .map(|time| time.to_rfc3339_opts(chrono::SecondsFormat::Millis, true))
}

/// `chrono::DateTime::parse_from_rfc3339` reads a time, or says in words why a
/// text is none.
#[verifier::external_body]
fn read_rfc3339(chars: &str) -> (time: Result<(i64, u32), String>)
    ensures
        match time {
            Ok(parts) => parsed_rfc3339(chars@) == Ok::<(i64, u32), Seq<char>>(parts),
            Err(reason) => parsed_rfc3339(chars@) == Err::<(i64, u32), Seq<char>>(reason@),
        },
{
    chrono::DateTime::parse_from_rfc3339(chars)
        .map(|time| (time.timestamp(), time.timestamp_subsec_nanos()))
        .map_err(|error| error.to_string())
}

/// A time as text.
pub fn timestamp(time: UtcTime) -> (written: Option<String>)
    ensures
        string_view(written) == rfc3339_text(time.seconds, time.nanos),
{
    rfc3339_millis(time.seconds, time.nanos)
}

/// A time in a column of the database, or why it cannot be read.
pub fn parse_timestamp_sql(chars: &str) -> (time: Result<UtcTime, String>)
    ensures
        match (time, parsed_rfc3339(chars@)) {
            (Ok(time), Ok(parts)) => (time.seconds, time.nanos) == parts,
            (Err(message), Err(reason)) => message@ == reason,
            _ => false,
        },
{
    match read_rfc3339(chars) {
        Ok(parts) => Ok(UtcTime { seconds: parts.0, nanos: parts.1 }),
        Err(reason) => Err(reason),
    }
}

/// A time that was written down, or why it cannot be read.
pub fn parse_timestamp(chars: &str) -> (time: Result<UtcTime, String>)
    ensures
        match (time, parsed_rfc3339(chars@)) {
            (Ok(time), Ok(parts)) => (time.seconds, time.nanos) == parts,
            (Err(message), Err(reason)) => message@ == "无效时间戳 "@ + chars@ + (": "@ + reason),
            _ => false,
        },
{
    match parse_timestamp_sql(chars) {
        Ok(time) => Ok(time),
        Err(reason) => {
            let end = concat2(": ", reason.as_str());
            Err(concat3("无效时间戳 ", chars, end.as_str()))
        },
    }
}

/// A time some seconds before another, or the first there is.
pub open spec fn seconds_before(time: UtcTime, seconds: int) -> UtcTime {
    UtcTime {
        seconds: if time.seconds - seconds < i64::MIN {
            i64::MIN
        } else {
            (time.seconds - seconds) as i64
        },
        nanos: time.nanos,
    }
}

fn earlier(time: UtcTime, seconds: i64) -> (result: UtcTime)
    requires
        0 <= seconds,
    ensures
        result == seconds_before(time, seconds as int),
{
    let start: i64 = if time.seconds < i64::MIN + seconds {
        i64::MIN
    } else {
        time.seconds - seconds
    };
    UtcTime { seconds: start, nanos: time.nanos }
}

/// A time some seconds after another, or the last there is.
pub open spec fn seconds_after(time: UtcTime, seconds: int) -> UtcTime {
    UtcTime {
        seconds: if time.seconds + seconds > i64::MAX {
            i64::MAX
        } else {
            (time.seconds + seconds) as i64
        },
        nanos: time.nanos,
    }
}

fn later(time: UtcTime, seconds: i64) -> (result: UtcTime)
    requires
        0 <= seconds,
    ensures
        result == seconds_after(time, seconds as int),
{
    let end: i64 = if time.seconds > i64::MAX - seconds {
        i64::MAX
    } else {
        time.seconds + seconds
    };
    UtcTime { seconds: end, nanos: time.nanos }
}

/// Whether one time is after another.
pub open spec fn is_after(time: UtcTime, other: UtcTime) -> bool {
    time.seconds > other.seconds || (time.seconds == other.seconds && time.nanos > other.nanos)
}

/// Whether one time is after another.
pub fn later_than(time: UtcTime, other: UtcTime) -> (later: bool)
    ensures
        later == is_after(time, other),
{
    time.seconds > other.seconds || (time.seconds == other.seconds && time.nanos > other.nanos)
}

/// A number within bounds.
pub open spec fn within(value: int, low: int, high: int) -> int {
    if value < low {
        low
    } else if value > high {
        high
    } else {
        value
    }
}

/// How many seconds a session is remembered.
pub fn affinity_seconds(ttl_seconds: u64) -> (seconds: i64)
    ensures
        seconds == within(ttl_seconds as int, 60, 86_400),
{
    if ttl_seconds < 60 {
        60
    } else if ttl_seconds > 86_400 {
        86_400
    } else {
        ttl_seconds as i64
    }
}

/// The time before which sessions are forgotten.
pub fn affinity_cutoff(now: UtcTime, ttl_seconds: u64) -> (cutoff: UtcTime)
    ensures
        cutoff == seconds_before(now, within(ttl_seconds as int, 60, 86_400)),
{
    earlier(now, affinity_seconds(ttl_seconds))
}

/// The time before which requests are dropped from the log, at least a day ago.
pub fn log_cutoff(now: UtcTime, retention_days: u16) -> (cutoff: UtcTime)
    ensures
        cutoff == seconds_before(now, within(retention_days as int, 1, 65_535) * 86_400),
{
    let days: i64 = if retention_days == 0 {
        1
    } else {
        retention_days as i64
    };
    earlier(now, days * 86_400)
}

/// The time until which a model is left alone.
pub fn cooldown_until(now: UtcTime, seconds: u64) -> (until: UtcTime)
    ensures
        until == seconds_after(now, within(seconds as int, 1, 86_400)),
{
    let span: i64 = if seconds < 1 {
        1
    } else if seconds > 86_400 {
        86_400
    } else {
        seconds as i64
    };
    later(now, span)
}

/// Whether a model is still left alone, by the time until which it is.
pub fn cooldown_active(until: &str, now: UtcTime) -> (active: Result<bool, String>)
    ensures
        match (active, parsed_rfc3339(until@)) {
            (Ok(active), Ok(parts)) => active == is_after(
                (UtcTime { seconds: parts.0, nanos: parts.1 }),
                now,
            ),
            (Err(message), Err(reason)) => message@ == "无效时间戳 "@ + until@ + (": "@ + reason),
            _ => false,
        },
{
    match parse_timestamp(until) {
        Ok(time) => Ok(later_than(time, now)),
        Err(message) => Err(message),
    }
}

/// How many requests a list shows.
pub fn request_list_limit(limit: usize) -> (rows: usize)
    ensures
        rows == within(limit as int, 1, 500),
{
    if limit < 1 {
        1
    } else if limit > 500 {
        500
    } else {
        limit
    }
}

/// How many conversations are kept on disk.
pub const MAX_STORED_HISTORIES: usize = 512;

/// What is wrong with a conversation that was kept on disk.
#[derive(Debug, Clone, Copy, PartialEq, Eq, Structural)]
pub enum StoredHistoryFault {
    Messages,
    ToolContext,
}

/// A conversation as it was kept on disk: its messages and its tools.
pub fn read_stored_history(messages: &str, tool_context: &str) -> (result: Result<
    (Json, Json),
    StoredHistoryFault,
>)
    ensures
        match (
            parsed_json(encode_utf8(messages@)),
            parsed_json(encode_utf8(tool_context@)),
            result,
        ) {
            (Ok(first), Ok(second), Ok(history)) => history.0@ == first && history.1@ == second,
            (Err(_), _, Err(fault)) => fault is Messages,
            (Ok(_), Err(_), Err(fault)) => fault is ToolContext,
            _ => false,
        },
{
    let first = match parse_json(messages.as_bytes()) {
        Ok(value) => value,
        Err(_) => {
            return Err(StoredHistoryFault::Messages);
        },
    };
    match parse_json(tool_context.as_bytes()) {
        Ok(value) => Ok((first, value)),
        Err(_) => Err(StoredHistoryFault::ToolContext),
    }
}

proof fn lemma_trimmed_names(list: Seq<Seq<char>>, name: Seq<char>)
    ensures
        trimmed_names(list).contains(name) <==> name.len() > 0 && exists|i: int|
            0 <= i < list.len() && trim(#[trigger] list[i]) == name,
    decreases list.len(),
{
    let all = trimmed_names(list);
    if list.len() > 0 {
        let front = list.drop_last();
        let before = trimmed_names(front);
        lemma_trimmed_names(front, name);
        if before.contains(name) {
            let place = choose|place: int| 0 <= place < before.len() && before[place] == name;
            assert(all[place] == name);
            let i = choose|i: int| 0 <= i < front.len() && trim(#[trigger] front[i]) == name;
            assert(trim(list[i]) == name);
        }
        if name.len() > 0 && trim(list.last()) == name {
            assert(all[before.len() as int] == name);
            assert(trim(list[list.len() - 1]) == name);
        }
        if all.contains(name) && !before.contains(name) {
            let place = choose|place: int| 0 <= place < all.len() && all[place] == name;
            if place < before.len() {
                assert(before[place] == name);
            }
            assert(trim(list[list.len() - 1]) == name);
        }
        if name.len() > 0 && (exists|i: int| 0 <= i < list.len() && trim(#[trigger] list[i])
            == name) {
            let i = choose|i: int| 0 <= i < list.len() && trim(#[trigger] list[i]) == name;
            if i < front.len() {
                assert(trim(front[i]) == name);
            }
        }
    }
}

/// A client is limited to exactly the models that it was given, but for white
/// space around them and blank ones; in order, each once.
pub proof fn law_clients_are_limited_to_their_models(list: Seq<Seq<char>>, name: Seq<char>)
    ensures
        valid_models(list) matches Ok(models) ==> (models.contains(name) <==> name.len() > 0
            && exists|i: int| 0 <= i < list.len() && trim(#[trigger] list[i]) == name),
        trimmed_names(list).len() == 0 ==> (valid_models(list) matches Ok(models) && models.len()
            == 0),
{
    lemma_trimmed_names(list, name);
    crate::names::law_names_in_order_are_kept(trimmed_names(list), name);
}

/// A client has a name of one to eighty scalar values, without white space at its
/// ends.
pub proof fn law_names_of_clients_are_checked(name: Seq<char>)
    ensures
        valid_name(name) is Ok <==> 0 < trim(name).len() <= 80,
        valid_name(name) matches Ok(kept) ==> kept == trim(name),
{
}

/// A model that is left alone for some seconds is left alone now and until those
/// have passed, and not after.
pub proof fn law_cooldowns_end(now: UtcTime, later: UtcTime, seconds: int)
    requires
        0 < seconds,
        now.seconds + seconds <= i64::MAX,
    ensures
        is_after(seconds_after(now, seconds), now),
        later.seconds < now.seconds + seconds ==> is_after(seconds_after(now, seconds), later),
        later.seconds > now.seconds + seconds ==> !is_after(seconds_after(now, seconds), later),
        seconds_before(seconds_after(now, seconds), seconds) == now,
{
}

/// Requests that failed one after the other are all counted, and one that is under
/// way is not; the first that was answered ends the count.
pub proof fn law_failures_are_counted_up_to_a_success(
    list: Seq<RequestOutcomeView>,
    stop: int,
)
    requires
        0 <= stop < list.len(),
        forall|i: int|
            0 <= i < stop ==> (#[trigger] list[i]).outcome == "failed"@ && list[i].time_is_valid,
        list[stop].outcome == "succeeded"@,
        list[stop].time_is_valid,
    ensures
        first_stop(list, 0) == stop,
        failures_before(list, stop) == stop,
        stop > 0 ==> first_failure(list, stop) == Some(0int),
{
    reveal_strlit("failed");
    reveal_strlit("succeeded");
    reveal_strlit("local");
    reveal_strlit("processing");
    assert("failed"@.len() == 6);
    assert("succeeded"@.len() == 9);
    assert("local"@.len() == 5);
    assert("processing"@.len() == 10);
    lemma_stop_found(list, 0, stop);
    lemma_failures_all(list, stop);
}

proof fn lemma_stop_found(list: Seq<RequestOutcomeView>, from: int, stop: int)
    requires
        0 <= from <= stop < list.len(),
        forall|i: int|
            0 <= i < stop ==> (#[trigger] list[i]).time_is_valid && !went_well(list[i].outcome),
        went_well(list[stop].outcome),
    ensures
        first_stop(list, from) == stop,
    decreases stop - from,
{
    if from < stop {
        assert(list[from].time_is_valid && !went_well(list[from].outcome));
        lemma_stop_found(list, from + 1, stop);
    }
}

proof fn lemma_failures_all(list: Seq<RequestOutcomeView>, count: int)
    requires
        0 <= count <= list.len(),
        forall|i: int| 0 <= i < count ==> went_wrong((#[trigger] list[i]).outcome),
    ensures
        failures_before(list, count) == count,
        count > 0 ==> first_failure(list, count) == Some(0int),
    decreases count,
{
    if count > 0 {
        lemma_failures_all(list, count - 1);
        assert(went_wrong(list[count - 1].outcome));
    }
}

/// A list of names that was written down is read again name by name, in order.
pub proof fn law_lists_of_names_are_read_again(names: Seq<Seq<char>>, stored: Seq<char>)
    requires
        stored == rendered(JsonView::Array(name_items(names, names.len() as int))),
        parsed_json(encode_utf8(stored)) matches Ok(read) && read == JsonView::Array(
            name_items(names, names.len() as int),
        ),
    ensures
        names_in(stored) == names,
{
    lemma_name_items(names, names.len() as int);
    assert(all_texts(name_items(names, names.len() as int)) =~= names);
}

} // verus!
