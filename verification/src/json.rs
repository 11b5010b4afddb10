//! JSON values as plain data.
//!
//! `Json` is the form in which the relay reads, edits and builds protocol
//! messages. Reading and writing JSON text is left to `serde_json`; a number
//! that is no 64-bit integer is carried through in its representation.
use crate::text::same;
use vstd::prelude::*;
use vstd::string::*;
use vstd::utf8::*;

verus! {

/// `serde_json::Value`, the tree that `serde_json` reads and writes.
#[verifier::external_type_specification]
#[verifier::external_body]
pub struct ExValue(serde_json::Value);

/// `serde_json::Number`, kept as it is for numbers that are no 64-bit integer.
#[verifier::external_type_specification]
#[verifier::external_body]
pub struct ExNumber(serde_json::Number);

/// `serde_json::Number::clone` copies the number.
pub assume_specification[ <serde_json::Number as Clone>::clone ](
    number: &serde_json::Number,
) -> (copy: serde_json::Number)
    ensures
        copy == *number,
;

/// A number that is no 64-bit integer. Only reading JSON text makes one.
#[derive(Debug)]
pub struct Fraction {
    number: serde_json::Number,
}

/// A JSON number: an integer that fits in 64 bits, or any other number.
#[derive(Debug)]
pub enum JsonNumber {
    Unsigned(u64),
    Negative(i64),
    Fraction(Fraction),
}

/// A JSON value. An object lists its fields; looking a key up finds the first
/// field of that name.
#[derive(Debug)]
pub enum Json {
    Null,
    Bool(bool),
    Number(JsonNumber),
    Text(String),
    Array(Vec<Json>),
    Object(Vec<(String, Json)>),
}

/// What a `Json` holds.
#[verifier::ext_equal]
pub enum JsonView {
    Null,
    Bool(bool),
    Number(JsonNumber),
    Text(Seq<char>),
    Array(Seq<JsonView>),
    Object(Seq<(Seq<char>, JsonView)>),
}

impl Json {
    /// The mathematical value of a JSON value.
    pub open spec fn model(self) -> JsonView
        decreases self,
    {
        match self {
            Json::Null => JsonView::Null,
            Json::Bool(value) => JsonView::Bool(value),
            Json::Number(number) => JsonView::Number(number),
            Json::Text(text) => JsonView::Text(text@),
            Json::Array(items) => JsonView::Array(
                Seq::new(
                    items@.len(),
                    |i: int|
                        if 0 <= i < items@.len() {
                            items@[i].model()
                        } else {
                            arbitrary()
                        },
                ),
            ),
            Json::Object(fields) => JsonView::Object(
                Seq::new(
                    fields@.len(),
                    |i: int|
                        if 0 <= i < fields@.len() {
                            (fields@[i].0@, fields@[i].1.model())
                        } else {
                            arbitrary()
                        },
                ),
            ),
        }
    }
}

impl View for Json {
    type V = JsonView;

    open spec fn view(&self) -> JsonView {
        self.model()
    }
}

/// Why a JSON text could not be read.
#[derive(Debug, Clone, Copy, PartialEq, Eq, Structural)]
pub enum JsonFault {
    /// The text ended in the middle of a value.
    Incomplete,
    /// The text is not JSON.
    Malformed,
}

/// What a `serde_json::Value` holds.
pub uninterp spec fn value_model(value: serde_json::Value) -> JsonView;

/// What `serde_json::from_slice` reads from a byte string.
pub uninterp spec fn parsed_json(bytes: Seq<u8>) -> Result<JsonView, JsonFault>;

/// What `serde_json::Value::to_string` writes for a value.
pub uninterp spec fn json_text(value: JsonView) -> Seq<char>;

/// One level of a `serde_json::Value`.
enum ValueParts<'a> {
    Null,
    Bool(bool),
    Number(JsonNumber),
    Text(&'a String),
    Array(&'a Vec<serde_json::Value>),
    Object(Vec<(&'a String, &'a serde_json::Value)>),
}

impl<'a> ValueParts<'a> {
    spec fn model(self) -> JsonView {
        match self {
            ValueParts::Null => JsonView::Null,
            ValueParts::Bool(value) => JsonView::Bool(value),
            ValueParts::Number(number) => JsonView::Number(number),
            ValueParts::Text(text) => JsonView::Text(text@),
            ValueParts::Array(items) => JsonView::Array(items@.map_values(|v| value_model(v))),
            ValueParts::Object(fields) => JsonView::Object(
                Seq::new(fields@.len(), |i: int| (fields@[i].0@, value_model(*fields@[i].1))),
            ),
        }
    }
}

/// One level of a value that is to be made.
enum ValueSeed {
    Null,
    Bool(bool),
    Number(JsonNumber),
    Text(String),
    Array(Vec<serde_json::Value>),
    Object(Vec<(String, serde_json::Value)>),
}

/// The number with an integer from zero on held as unsigned.
pub open spec fn plain_number(number: JsonNumber) -> JsonNumber {
    match number {
        JsonNumber::Negative(value) if value >= 0 => JsonNumber::Unsigned(value as u64),
        _ => number,
    }
}

/// Whether one key comes before another, scalar value by scalar value.
pub open spec fn key_less(left: Seq<char>, right: Seq<char>) -> bool
    decreases left.len(),
{
    if right.len() == 0 {
        false
    } else if left.len() == 0 {
        true
    } else {
        left[0] < right[0] || (left[0] == right[0] && key_less(
            left.drop_first(),
            right.drop_first(),
        ))
    }
}

/// Fields in ascending order of keys, with one more field put in its place; a
/// field of the same key is replaced.
pub open spec fn placed(
    fields: Seq<(Seq<char>, JsonView)>,
    key: Seq<char>,
    value: JsonView,
) -> Seq<(Seq<char>, JsonView)>
    decreases fields.len(),
{
    if fields.len() == 0 {
        seq![(key, value)]
    } else if fields[0].0 == key {
        fields.update(0, (key, value))
    } else if key_less(key, fields[0].0) {
        seq![(key, value)] + fields
    } else {
        seq![fields[0]] + placed(fields.drop_first(), key, value)
    }
}

/// The fields in ascending order of keys, the last of each key.
pub open spec fn by_key(fields: Seq<(Seq<char>, JsonView)>) -> Seq<(Seq<char>, JsonView)>
    decreases fields.len(),
{
    if fields.len() == 0 {
        seq![]
    } else {
        placed(by_key(fields.drop_last()), fields.last().0, fields.last().1)
    }
}

/// The value with the fields of every object in ascending order of keys.
pub open spec fn ordered(value: JsonView) -> JsonView
    decreases value,
{
    match value {
        JsonView::Array(items) => JsonView::Array(
            Seq::new(
                items.len(),
                |i: int|
                    if 0 <= i < items.len() {
                        ordered(items[i])
                    } else {
                        arbitrary()
                    },
            ),
        ),
        JsonView::Object(fields) => JsonView::Object(by_key(ordered_fields(fields))),
        JsonView::Number(number) => JsonView::Number(plain_number(number)),
        _ => value,
    }
}

/// The fields as they are, each with its value put in order.
pub open spec fn ordered_fields(fields: Seq<(Seq<char>, JsonView)>) -> Seq<(Seq<char>, JsonView)>
    decreases fields,
{
    Seq::new(
        fields.len(),
        |i: int|
            if 0 <= i < fields.len() {
                (fields[i].0, ordered(fields[i].1))
            } else {
                arbitrary()
            },
    )
}

spec fn seed_fields(fields: Seq<(String, serde_json::Value)>) -> Seq<(Seq<char>, JsonView)> {
    Seq::new(fields.len(), |i: int| (fields[i].0@, value_model(fields[i].1)))
}

impl ValueSeed {
    spec fn model(self) -> JsonView {
        match self {
            ValueSeed::Null => JsonView::Null,
            ValueSeed::Bool(value) => JsonView::Bool(value),
            ValueSeed::Number(number) => JsonView::Number(plain_number(number)),
            ValueSeed::Text(text) => JsonView::Text(text@),
            ValueSeed::Array(items) => JsonView::Array(items@.map_values(|v| value_model(v))),
            ValueSeed::Object(fields) => JsonView::Object(
                by_key(seed_fields(fields@)),
            ),
        }
    }
}

/// `serde_json::from_slice` reads a byte string as one JSON value. The result
/// is a function of the bytes alone; of a failure only `Error::is_eof` is kept.
/// A `serde_json::Map` holds each key once.
#[verifier::external_body]
fn read_value(bytes: &[u8]) -> (result: Result<serde_json::Value, JsonFault>)
    ensures
        match result {
            Ok(value) => parsed_json(bytes@) == Ok::<JsonView, JsonFault>(value_model(value))
                && keys_apart(value_model(value)),
            Err(fault) => parsed_json(bytes@) == Err::<JsonView, JsonFault>(fault),
        },
{
    match serde_json::from_slice::<serde_json::Value>(bytes) {
        Ok(value) => Ok(value),
        Err(error) if error.is_eof() => Err(JsonFault::Incomplete),
        Err(_) => Err(JsonFault::Malformed),
    }
}

/// The variants of `serde_json::Value`, each with what it holds.
#[verifier::external_body]
fn value_parts(value: &serde_json::Value) -> (parts: ValueParts<'_>)
    ensures
        parts.model() == value_model(*value),
{
    match value {
        serde_json::Value::Null => ValueParts::Null,
        serde_json::Value::Bool(value) => ValueParts::Bool(*value),
        serde_json::Value::Number(number) => ValueParts::Number(match (number.as_u64(), number.as_i64()) {
            (Some(value), _) => JsonNumber::Unsigned(value),
            (None, Some(value)) => JsonNumber::Negative(value),
            (None, None) => JsonNumber::Fraction(Fraction { number: number.clone() }),
        }),
        serde_json::Value::String(text) => ValueParts::Text(text),
        serde_json::Value::Array(items) => ValueParts::Array(items),
        serde_json::Value::Object(fields) => ValueParts::Object(fields.iter().collect()),
    }
}

/// The variants of `serde_json::Value`, made from what each holds. Collecting
/// fields into `serde_json::Map` keeps the last value of each key, in ascending
/// order of keys.
#[verifier::external_body]
fn value_from(seed: ValueSeed) -> (value: serde_json::Value)
    ensures
        value_model(value) == seed.model(),
{
    match seed {
        ValueSeed::Null => serde_json::Value::Null,
        ValueSeed::Bool(value) => serde_json::Value::Bool(value),
        ValueSeed::Number(JsonNumber::Unsigned(value)) => serde_json::Value::Number(value.into()),
        ValueSeed::Number(JsonNumber::Negative(value)) => serde_json::Value::Number(value.into()),
        ValueSeed::Number(JsonNumber::Fraction(fraction)) => serde_json::Value::Number(fraction.number),
        ValueSeed::Text(text) => serde_json::Value::String(text),
        ValueSeed::Array(items) => serde_json::Value::Array(items),
        ValueSeed::Object(fields) => serde_json::Value::Object(fields.into_iter().collect()),
    }
}

/// How many levels of arrays and objects serde_json reads into each other.
pub const MAX_JSON_LEVELS: u8 = 127;

/// Whether the text of a value can be read back as it was: arrays and objects
/// are not nested too deeply, all numbers are integers, and no object has the key
/// by which serde_json marks JSON that is kept as text.
pub open spec fn readable(value: JsonView, levels: int) -> bool
    decreases value,
{
    match value {
        JsonView::Array(items) => levels > 0 && forall|i: int|
            0 <= i < items.len() ==> readable(#[trigger] items[i], levels - 1),
        JsonView::Object(fields) => levels > 0 && forall|i: int|
            0 <= i < fields.len() ==> (#[trigger] fields[i]).0
                != "$serde_json::private::RawValue"@ && readable(fields[i].1, levels - 1),
        JsonView::Number(JsonNumber::Fraction(_)) => false,
        _ => true,
    }
}

/// A text that was read as a value.
pub open spec fn read_as(value: JsonView) -> Result<JsonView, JsonFault> {
    Ok(value)
}

/// `serde_json::Value::to_string` writes a value as compact JSON text, which
/// is a function of what the value holds. `serde_json::from_slice` reads that
/// text back as the same value; it stops at values that are nested too deeply,
/// takes an object with its own key for raw JSON for what that JSON says, and of
/// fractions nothing is said.
#[verifier::external_body]
fn write_value(value: &serde_json::Value) -> (text: String)
    ensures
        text@ == json_text(value_model(*value)),
        readable(value_model(*value), MAX_JSON_LEVELS as int) ==> parsed_json(encode_utf8(text@))
            == read_as(value_model(*value)),
{
    value.to_string()
}

/// The JSON text of a value.
pub open spec fn rendered(value: JsonView) -> Seq<char> {
    json_text(ordered(value))
}

/// The result of reading JSON, by what it holds.
pub open spec fn outcome_view(result: Result<Json, JsonFault>) -> Result<JsonView, JsonFault> {
    match result {
        Ok(value) => Ok(value@),
        Err(fault) => Err(fault),
    }
}

fn copy_number(number: &JsonNumber) -> (copy: JsonNumber)
    ensures
        copy == *number,
{
    match number {
        JsonNumber::Unsigned(value) => JsonNumber::Unsigned(*value),
        JsonNumber::Negative(value) => JsonNumber::Negative(*value),
        JsonNumber::Fraction(fraction) => JsonNumber::Fraction(
            Fraction { number: fraction.number.clone() },
        ),
    }
}

fn json_of(value: &serde_json::Value) -> (json: Json)
    ensures
        json@ == value_model(*value),
    decreases value_model(*value),
{
    match value_parts(value) {
        ValueParts::Null => Json::Null,
        ValueParts::Bool(value) => Json::Bool(value),
        ValueParts::Number(number) => Json::Number(number),
        ValueParts::Text(text) => Json::Text(text.clone()),
        ValueParts::Array(items) => {
            let ghost model = value_model(*value)->Array_0;
            let mut list: Vec<Json> = Vec::new();
            let mut index: usize = 0;
            while index < items.len()
                invariant
                    index <= items@.len(),
                    value_model(*value) == JsonView::Array(model),
                    model == items@.map_values(|v| value_model(v)),
                    list@.len() == index,
                    forall|i: int| 0 <= i < index ==> (#[trigger] list@[i])@ == model[i],
                decreases items@.len() - index,
            {
                assert(model[index as int] == value_model(items@[index as int]));
                assert(decreases_to!(value_model(*value) => value_model(*value)->Array_0));
                assert(decreases_to!(model => model[index as int]));
                list.push(json_of(&items[index]));
                index += 1;
            }
            let json = Json::Array(list);
            assert(json@->Array_0 =~= model);
            json
        },
        ValueParts::Object(fields) => {
            let ghost model = value_model(*value)->Object_0;
            let mut list: Vec<(String, Json)> = Vec::new();
            let mut index: usize = 0;
            while index < fields.len()
                invariant
                    index <= fields@.len(),
                    value_model(*value) == JsonView::Object(model),
                    model == Seq::new(
                        fields@.len(),
                        |i: int| (fields@[i].0@, value_model(*fields@[i].1)),
                    ),
                    list@.len() == index,
                    forall|i: int|
                        0 <= i < index ==> (#[trigger] list@[i]).0@ == model[i].0 && list@[i].1@
                            == model[i].1,
                decreases fields@.len() - index,
            {
                assert(model[index as int].1 == value_model(*fields@[index as int].1));
                assert(decreases_to!(value_model(*value) => value_model(*value)->Object_0));
                assert(decreases_to!(model => model[index as int]));
                assert(decreases_to!(model[index as int] => model[index as int].1));
                list.push((fields[index].0.clone(), json_of(fields[index].1)));
                index += 1;
            }
            let json = Json::Object(list);
            assert(json@->Object_0 =~= model);
            json
        },
    }
}

fn value_of(json: &Json) -> (value: serde_json::Value)
    ensures
        value_model(value) == ordered(json@),
    decreases json,
{
    match json {
        Json::Null => value_from(ValueSeed::Null),
        Json::Bool(value) => value_from(ValueSeed::Bool(*value)),
        Json::Number(number) => value_from(ValueSeed::Number(copy_number(number))),
        Json::Text(text) => value_from(ValueSeed::Text(text.clone())),
        Json::Array(items) => {
            let mut list: Vec<serde_json::Value> = Vec::new();
            let mut index: usize = 0;
            while index < items.len()
                invariant
                    index <= items@.len(),
                    *json == Json::Array(*items),
                    list@.len() == index,
                    forall|i: int|
                        0 <= i < index ==> value_model(#[trigger] list@[i]) == ordered(items@[i]@),
                decreases items@.len() - index,
            {
                assert(decreases_to!(*json => json->Array_0));
                assert(decreases_to!(*items => items@));
                assert(decreases_to!(items@ => items@[index as int]));
                list.push(value_of(&items[index]));
                index += 1;
            }
            let ghost model = list@.map_values(|v| value_model(v));
            let value = value_from(ValueSeed::Array(list));
            assert(ordered(json@)->Array_0 =~= model);
            value
        },
        Json::Object(fields) => {
            let mut list: Vec<(String, serde_json::Value)> = Vec::new();
            let mut index: usize = 0;
            while index < fields.len()
                invariant
                    index <= fields@.len(),
                    *json == Json::Object(*fields),
                    list@.len() == index,
                    forall|i: int|
                        0 <= i < index ==> (#[trigger] list@[i]).0@ == fields@[i].0@ && value_model(
                            list@[i].1,
                        ) == ordered(fields@[i].1@),
                decreases fields@.len() - index,
            {
                assert(decreases_to!(*json => json->Object_0));
                assert(decreases_to!(*fields => fields@));
                assert(decreases_to!(fields@ => fields@[index as int]));
                assert(decreases_to!(fields@[index as int] => fields@[index as int].1));
                list.push((fields[index].0.clone(), value_of(&fields[index].1)));
                index += 1;
            }
            assert(seed_fields(list@) =~= ordered_fields(json@->Object_0));
            let value = value_from(ValueSeed::Object(list));
            value
        },
    }
}

/// Reads JSON text.
pub fn parse_json(bytes: &[u8]) -> (result: Result<Json, JsonFault>)
    ensures
        outcome_view(result) == parsed_json(bytes@),
        result matches Ok(json) ==> keys_apart(json@),
{
    match read_value(bytes) {
        Ok(value) => Ok(json_of(&value)),
        Err(fault) => Err(fault),
    }
}

/// Writes JSON text.
pub fn render_json(json: &Json) -> (text: String)
    ensures
        text@ == rendered(json@),
        readable(ordered(json@), MAX_JSON_LEVELS as int) ==> parsed_json(encode_utf8(text@))
            == read_as(ordered(json@)),
{
    write_value(&value_of(json))
}

/// What the values of a list hold.
pub open spec fn views(items: Seq<Json>) -> Seq<JsonView> {
    Seq::new(items.len(), |i: int| items[i]@)
}

/// What the fields of a list hold.
pub open spec fn field_views(fields: Seq<(String, Json)>) -> Seq<(Seq<char>, JsonView)> {
    Seq::new(fields.len(), |i: int| (fields[i].0@, fields[i].1@))
}

/// What a borrowed value holds, if there is one.
pub open spec fn seen(value: Option<&Json>) -> Option<JsonView> {
    match value {
        Some(json) => Some(json@),
        None => None,
    }
}

/// The text that is borrowed, if there is one.
pub open spec fn str_view(text: Option<&str>) -> Option<Seq<char>> {
    match text {
        Some(text) => Some(text@),
        None => None,
    }
}

/// The value of the first field of a key.
pub open spec fn field_of(fields: Seq<(Seq<char>, JsonView)>, key: Seq<char>) -> Option<JsonView>
    decreases fields.len(),
{
    if fields.len() == 0 {
        None
    } else if fields[0].0 == key {
        Some(fields[0].1)
    } else {
        field_of(fields.drop_first(), key)
    }
}

/// The fields with the first field of a key set to a value, or a field added
/// at the end where the key does not occur.
pub open spec fn put(
    fields: Seq<(Seq<char>, JsonView)>,
    key: Seq<char>,
    value: JsonView,
) -> Seq<(Seq<char>, JsonView)>
    decreases fields.len(),
{
    if fields.len() == 0 {
        seq![(key, value)]
    } else if fields[0].0 == key {
        fields.update(0, (key, value))
    } else {
        seq![fields[0]] + put(fields.drop_first(), key, value)
    }
}

/// The fields without those of a key.
pub open spec fn without_key(
    fields: Seq<(Seq<char>, JsonView)>,
    key: Seq<char>,
) -> Seq<(Seq<char>, JsonView)>
    decreases fields.len(),
{
    if fields.len() == 0 {
        seq![]
    } else if fields[0].0 == key {
        without_key(fields.drop_first(), key)
    } else {
        seq![fields[0]] + without_key(fields.drop_first(), key)
    }
}

impl JsonView {
    /// The value of a field, where the value is an object that has it.
    pub open spec fn get(self, key: Seq<char>) -> Option<JsonView> {
        match self {
            JsonView::Object(fields) => field_of(fields, key),
            _ => None,
        }
    }

    /// The text, where the value is one.
    pub open spec fn text(self) -> Option<Seq<char>> {
        match self {
            JsonView::Text(text) => Some(text),
            _ => None,
        }
    }

    /// The items, where the value is an array.
    pub open spec fn items(self) -> Option<Seq<JsonView>> {
        match self {
            JsonView::Array(items) => Some(items),
            _ => None,
        }
    }

    /// The truth value, where the value is one.
    pub open spec fn flag(self) -> Option<bool> {
        match self {
            JsonView::Bool(flag) => Some(flag),
            _ => None,
        }
    }

    /// The integer, where the value is one from 0 to `u64::MAX`.
    pub open spec fn unsigned(self) -> Option<u64> {
        match self {
            JsonView::Number(JsonNumber::Unsigned(value)) => Some(value),
            JsonView::Number(JsonNumber::Negative(value)) if value >= 0 => Some(value as u64),
            _ => None,
        }
    }

    /// The integer, where the value is one from `i64::MIN` to `i64::MAX`.
    pub open spec fn signed(self) -> Option<i64> {
        match self {
            JsonView::Number(JsonNumber::Unsigned(value)) if value <= i64::MAX => Some(
                value as i64,
            ),
            JsonView::Number(JsonNumber::Negative(value)) => Some(value),
            _ => None,
        }
    }

    /// The object with one field set; any other value as it is.
    pub open spec fn with(self, key: Seq<char>, value: JsonView) -> JsonView {
        match self {
            JsonView::Object(fields) => JsonView::Object(put(fields, key, value)),
            _ => self,
        }
    }

    /// The object without one field; any other value as it is.
    pub open spec fn without(self, key: Seq<char>) -> JsonView {
        match self {
            JsonView::Object(fields) => JsonView::Object(without_key(fields, key)),
            _ => self,
        }
    }

    /// The object with one more field at the end.
    pub open spec fn entry(self, key: Seq<char>, value: JsonView) -> JsonView {
        JsonView::Object((self->Object_0).push((key, value)))
    }

    /// The text of a field.
    pub open spec fn get_text(self, key: Seq<char>) -> Option<Seq<char>> {
        text_in(self.get(key))
    }
}

/// The object without fields.
pub open spec fn obj() -> JsonView {
    JsonView::Object(Seq::empty())
}

/// The field of a value that may be missing.
pub open spec fn at(value: Option<JsonView>, key: Seq<char>) -> Option<JsonView> {
    match value {
        Some(value) => value.get(key),
        None => None,
    }
}

/// The text of a value that may be missing.
pub open spec fn text_in(value: Option<JsonView>) -> Option<Seq<char>> {
    match value {
        Some(value) => value.text(),
        None => None,
    }
}

/// The items of a value that may be missing.
pub open spec fn items_in(value: Option<JsonView>) -> Option<Seq<JsonView>> {
    match value {
        Some(value) => value.items(),
        None => None,
    }
}

/// The first of two values that is there.
pub open spec fn either<T>(first: Option<T>, second: Option<T>) -> Option<T> {
    match first {
        Some(value) => Some(value),
        None => second,
    }
}

impl Json {
    /// The value of a field.
    pub fn get(&self, key: &str) -> (value: Option<&Json>)
        ensures
            seen(value) == self@.get(key@),
    {
        match self {
            Json::Object(fields) => {
                let ghost all = field_views(fields@);
                assert(self@->Object_0 =~= all);
                assert(all.skip(0) =~= all);
                let mut index: usize = 0;
                while index < fields.len()
                    invariant
                        index <= fields@.len(),
                        all == field_views(fields@),
                        self@ == JsonView::Object(all),
                        field_of(all, key@) == field_of(all.skip(index as int), key@),
                    decreases fields@.len() - index,
                {
                    assert(all.skip(index as int)[0] == all[index as int]);
                    assert(all.skip(index as int).drop_first() =~= all.skip(index + 1));
                    if same(&fields[index].0, key) {
                        return Some(&fields[index].1);
                    }
                    index += 1;
                }
                None
            },
            _ => None,
        }
    }

    /// The text of the value.
    pub fn as_text(&self) -> (text: Option<&str>)
        ensures
            str_view(text) == self@.text(),
    {
        match self {
            Json::Text(text) => Some(text.as_str()),
            _ => None,
        }
    }

    /// The items of the value.
    pub fn as_array(&self) -> (items: Option<&Vec<Json>>)
        ensures
            match items {
                Some(items) => self@ == JsonView::Array(views(items@)),
                None => self@ !is Array,
            },
            items matches Some(list) ==> *self == Json::Array(*list),
    {
        match self {
            Json::Array(items) => {
                assert(self@->Array_0 =~= views(items@));
                Some(items)
            },
            _ => None,
        }
    }

    /// The fields of the value.
    pub fn as_object(&self) -> (fields: Option<&Vec<(String, Json)>>)
        ensures
            match fields {
                Some(fields) => self@ == JsonView::Object(field_views(fields@)),
                None => self@ !is Object,
            },
            fields matches Some(list) ==> *self == Json::Object(*list),
    {
        match self {
            Json::Object(fields) => {
                assert(self@->Object_0 =~= field_views(fields@));
                Some(fields)
            },
            _ => None,
        }
    }

    /// The truth value.
    pub fn as_bool(&self) -> (flag: Option<bool>)
        ensures
            flag == self@.flag(),
    {
        match self {
            Json::Bool(flag) => Some(*flag),
            _ => None,
        }
    }

    /// The integer from 0 to `u64::MAX`.
    pub fn as_u64(&self) -> (value: Option<u64>)
        ensures
            value == self@.unsigned(),
    {
        match self {
            Json::Number(JsonNumber::Unsigned(value)) => Some(*value),
            Json::Number(JsonNumber::Negative(value)) => if *value >= 0 {
                Some(*value as u64)
            } else {
                None
            },
            _ => None,
        }
    }

    /// The integer from `i64::MIN` to `i64::MAX`.
    pub fn as_i64(&self) -> (value: Option<i64>)
        ensures
            value == self@.signed(),
    {
        match self {
            Json::Number(JsonNumber::Unsigned(value)) => if *value <= i64::MAX as u64 {
                Some(*value as i64)
            } else {
                None
            },
            Json::Number(JsonNumber::Negative(value)) => Some(*value),
            _ => None,
        }
    }

    /// Whether the value is null.
    pub fn is_null(&self) -> (null: bool)
        ensures
            null == (self@ is Null),
    {
        match self {
            Json::Null => true,
            _ => false,
        }
    }

    /// Whether the value is an object.
    pub fn is_object(&self) -> (object: bool)
        ensures
            object == (self@ is Object),
    {
        match self {
            Json::Object(_) => true,
            _ => false,
        }
    }

    /// The text of a field.
    pub fn get_text(&self, key: &str) -> (text: Option<&str>)
        ensures
            str_view(text) == self@.get_text(key@),
    {
        text_at(self.get(key))
    }
}

/// The field of a value that may be missing.
pub fn get_at<'a>(value: Option<&'a Json>, key: &str) -> (found: Option<&'a Json>)
    ensures
        seen(found) == at(seen(value), key@),
{
    match value {
        Some(json) => json.get(key),
        None => None,
    }
}

/// The text of a value that may be missing.
pub fn text_at<'a>(value: Option<&'a Json>) -> (text: Option<&'a str>)
    ensures
        str_view(text) == text_in(seen(value)),
{
    match value {
        Some(json) => json.as_text(),
        None => None,
    }
}

/// Setting a key that occurs replaces its first field.
proof fn lemma_put_found(
    fields: Seq<(Seq<char>, JsonView)>,
    key: Seq<char>,
    value: JsonView,
    index: int,
)
    requires
        0 <= index < fields.len(),
        fields[index].0 == key,
        forall|i: int| 0 <= i < index ==> (#[trigger] fields[i]).0 != key,
    ensures
        put(fields, key, value) == fields.update(index, (key, value)),
    decreases fields.len(),
{
    if index > 0 {
        let rest = fields.drop_first();
        assert forall|i: int| 0 <= i < index - 1 implies (#[trigger] rest[i]).0 != key by {
            assert(rest[i] == fields[i + 1]);
        }
        lemma_put_found(rest, key, value, index - 1);
        assert(fields.update(index, (key, value)) =~= seq![fields[0]] + rest.update(
            index - 1,
            (key, value),
        ));
    }
}

/// Setting a key that does not occur adds a field at the end.
proof fn lemma_put_absent(fields: Seq<(Seq<char>, JsonView)>, key: Seq<char>, value: JsonView)
    requires
        forall|i: int| 0 <= i < fields.len() ==> (#[trigger] fields[i]).0 != key,
    ensures
        put(fields, key, value) == fields.push((key, value)),
    decreases fields.len(),
{
    if fields.len() > 0 {
        let rest = fields.drop_first();
        assert forall|i: int| 0 <= i < rest.len() implies (#[trigger] rest[i]).0 != key by {
            assert(rest[i] == fields[i + 1]);
        }
        lemma_put_absent(rest, key, value);
        assert(fields.push((key, value)) =~= seq![fields[0]] + rest.push((key, value)));
    } else {
        assert(fields.push((key, value)) =~= seq![(key, value)]);
    }
}

/// An object without fields.
pub fn object() -> (json: Json)
    ensures
        json@ == obj(),
{
    let json = Json::Object(Vec::new());
    assert(json@->Object_0 =~= Seq::empty());
    json
}

/// An array of the given items.
pub fn array(items: Vec<Json>) -> (json: Json)
    ensures
        json@ == JsonView::Array(views(items@)),
        json == Json::Array(items),
{
    let json = Json::Array(items);
    assert(json@->Array_0 =~= views(items@));
    json
}

/// An array without items.
pub fn no_items() -> (json: Json)
    ensures
        json@ == JsonView::Array(seq![]),
{
    let json = array(Vec::new());
    assert(json@->Array_0 =~= seq![]);
    json
}

/// An array of one item.
pub fn one_item(item: Json) -> (json: Json)
    ensures
        json@ == JsonView::Array(seq![item@]),
{
    let mut items: Vec<Json> = Vec::new();
    items.push(item);
    let json = array(items);
    assert(json@->Array_0 =~= seq![item@]);
    json
}

/// A text value.
pub fn text(value: &str) -> (json: Json)
    ensures
        json@ == JsonView::Text(value@),
{
    Json::Text(value.to_owned())
}

/// A copy of a text that may be missing.
pub fn text_or_null(value: Option<&str>) -> (json: Json)
    ensures
        json@ == (match str_view(value) {
            Some(text) => JsonView::Text(text),
            None => JsonView::Null,
        }),
{
    match value {
        Some(value) => text(value),
        None => Json::Null,
    }
}

/// An integer from 0 on.
pub fn unsigned(value: u64) -> (json: Json)
    ensures
        json@ == JsonView::Number(JsonNumber::Unsigned(value)),
{
    Json::Number(JsonNumber::Unsigned(value))
}

/// An integer, held as unsigned from 0 on.
pub open spec fn integer_view(value: i64) -> JsonView {
    JsonView::Number(
        if value >= 0 {
            JsonNumber::Unsigned(value as u64)
        } else {
            JsonNumber::Negative(value)
        },
    )
}

/// An integer.
pub fn integer(value: i64) -> (json: Json)
    ensures
        json@ == integer_view(value),
{
    Json::Number(
        if value >= 0 {
            JsonNumber::Unsigned(value as u64)
        } else {
            JsonNumber::Negative(value)
        },
    )
}

/// Copies of the values of a list.
pub fn copy_all(items: &Vec<Json>) -> (copies: Vec<Json>)
    ensures
        views(copies@) == views(items@),
    decreases *items,
{
    let mut copies: Vec<Json> = Vec::new();
    let mut index: usize = 0;
    while index < items.len()
        invariant
            index <= items@.len(),
            copies@.len() == index,
            forall|i: int| 0 <= i < index ==> (#[trigger] copies@[i])@ == items@[i]@,
        decreases items@.len() - index,
    {
        assert(decreases_to!(*items => items@));
        assert(decreases_to!(items@ => items@[index as int]));
        copies.push(items[index].copy());
        index += 1;
    }
    assert(views(copies@) =~= views(items@));
    copies
}

/// Copies of the fields of a list.
fn copy_fields(fields: &Vec<(String, Json)>) -> (copies: Vec<(String, Json)>)
    ensures
        field_views(copies@) == field_views(fields@),
    decreases *fields,
{
    let mut copies: Vec<(String, Json)> = Vec::new();
    let mut index: usize = 0;
    while index < fields.len()
        invariant
            index <= fields@.len(),
            copies@.len() == index,
            forall|i: int|
                0 <= i < index ==> (#[trigger] copies@[i]).0@ == fields@[i].0@ && copies@[i].1@
                    == fields@[i].1@,
        decreases fields@.len() - index,
    {
        assert(decreases_to!(*fields => fields@));
        assert(decreases_to!(fields@ => fields@[index as int]));
        assert(decreases_to!(fields@[index as int] => fields@[index as int].1));
        copies.push((fields[index].0.clone(), fields[index].1.copy()));
        index += 1;
    }
    assert(field_views(copies@) =~= field_views(fields@));
    copies
}

impl Json {
    /// A copy of the value.
    pub fn copy(&self) -> (json: Json)
        ensures
            json@ == self@,
        decreases *self,
    {
        match self {
            Json::Null => Json::Null,
            Json::Bool(value) => Json::Bool(*value),
            Json::Number(number) => Json::Number(copy_number(number)),
            Json::Text(value) => Json::Text(value.clone()),
            Json::Array(items) => {
                assert(decreases_to!(*self => self->Array_0));
                let json = array(copy_all(items));
                assert(self@->Array_0 =~= views(items@));
                json
            },
            Json::Object(fields) => {
                assert(decreases_to!(*self => self->Object_0));
                let json = Json::Object(copy_fields(fields));
                assert(self@->Object_0 =~= field_views(fields@));
                assert(json@->Object_0 =~= field_views(fields@));
                json
            },
        }
    }

    /// The object with one more field at the end.
    pub fn entry(self, key: &str, value: Json) -> (json: Json)
        requires
            self@ is Object,
        ensures
            json@ == self@.entry(key@, value@),
    {
        match self {
            Json::Object(fields) => {
                let mut fields = fields;
                let ghost before = fields@;
                assert(self@->Object_0 =~= field_views(before));
                fields.push((key.to_owned(), value));
                let json = Json::Object(fields);
                assert(json@->Object_0 =~= field_views(before).push((key@, value@)));
                json
            },
            other => other,
        }
    }

    /// The object with one field set; any other value as it is.
    pub fn with(self, key: &str, value: Json) -> (json: Json)
        ensures
            json@ == self@.with(key@, value@),
    {
        match self {
            Json::Object(fields) => {
                let mut fields = fields;
                let ghost before = field_views(fields@);
                assert(self@->Object_0 =~= before);
                let mut index: usize = 0;
                while index < fields.len()
                    invariant
                        index <= fields@.len(),
                        before == field_views(fields@),
                        self@ == JsonView::Object(before),
                        forall|i: int| 0 <= i < index ==> (#[trigger] before[i]).0 != key@,
                    decreases fields@.len() - index,
                {
                    assert(before[index as int].0 == fields@[index as int].0@);
                    if same(&fields[index].0, key) {
                        proof {
                            lemma_put_found(before, key@, value@, index as int);
                        }
                        fields.set(index, (key.to_owned(), value));
                        let json = Json::Object(fields);
                        assert(json@->Object_0 =~= before.update(index as int, (key@, value@)));
                        return json;
                    }
                    index += 1;
                }
                proof {
                    lemma_put_absent(before, key@, value@);
                }
                fields.push((key.to_owned(), value));
                let json = Json::Object(fields);
                assert(json@->Object_0 =~= before.push((key@, value@)));
                json
            },
            other => other,
        }
    }

    /// The object without one field; any other value as it is.
    pub fn without(self, key: &str) -> (json: Json)
        ensures
            json@ == self@.without(key@),
    {
        match self {
            Json::Object(fields) => {
                let mut fields = fields;
                let ghost before = field_views(fields@);
                assert(self@->Object_0 =~= before);
                let mut index: usize = 0;
                assert(before =~= before.skip(0));
                while index < fields.len()
                    invariant
                        index <= fields@.len(),
                        self@ == JsonView::Object(before),
                        without_key(before, key@) == field_views(fields@).take(index as int)
                            + without_key(field_views(fields@).skip(index as int), key@),
                    decreases fields@.len() - index,
                {
                    let ghost current = field_views(fields@);
                    assert(current.skip(index as int)[0] == current[index as int]);
                    assert(current.skip(index as int).drop_first() =~= current.skip(index + 1));
                    if same(&fields[index].0, key) {
                        fields.remove(index);
                        assert(field_views(fields@).take(index as int) =~= current.take(
                            index as int,
                        ));
                        assert(field_views(fields@).skip(index as int) =~= current.skip(index + 1));
                    } else {
                        assert(current.take(index as int) + (seq![current[index as int]]
                            + without_key(current.skip(index + 1), key@)) =~= current.take(
                            index + 1,
                        ) + without_key(current.skip(index + 1), key@));
                        index += 1;
                    }
                }
                assert(field_views(fields@).skip(index as int) =~= seq![]);
                let json = Json::Object(fields);
                assert(json@->Object_0 =~= without_key(before, key@));
                json
            },
            other => other,
        }
    }
}

/// A field that is found is one of the fields.
pub proof fn lemma_field_index(fields: Seq<(Seq<char>, JsonView)>, key: Seq<char>) -> (index: int)
    requires
        field_of(fields, key) is Some,
    ensures
        0 <= index < fields.len(),
        fields[index] == (key, field_of(fields, key)->0),
    decreases fields.len(),
{
    if fields[0].0 == key {
        0
    } else {
        let index = lemma_field_index(fields.drop_first(), key);
        assert(fields.drop_first()[index] == fields[index + 1]);
        index + 1
    }
}

/// The value of a field is a part of the value that has it.
pub proof fn lemma_field_is_smaller(value: JsonView, key: Seq<char>)
    requires
        value.get(key) is Some,
    ensures
        decreases_to!(value => value.get(key)->0),
{
    let fields = value->Object_0;
    let index = lemma_field_index(fields, key);
    assert(decreases_to!(value => value->Object_0));
    assert(decreases_to!(fields => fields[index]));
    assert(decreases_to!(fields[index] => fields[index].1));
}

/// A field that was set is read back.
pub proof fn law_set_then_get(fields: Seq<(Seq<char>, JsonView)>, key: Seq<char>, value: JsonView)
    ensures
        field_of(put(fields, key, value), key) == Some(value),
    decreases fields.len(),
{
    if fields.len() > 0 && fields[0].0 != key {
        law_set_then_get(fields.drop_first(), key, value);
        assert((seq![fields[0]] + put(fields.drop_first(), key, value)).drop_first() =~= put(
            fields.drop_first(),
            key,
            value,
        ));
    }
}

/// Setting a field leaves the others as they are.
pub proof fn law_set_keeps_others(
    fields: Seq<(Seq<char>, JsonView)>,
    key: Seq<char>,
    value: JsonView,
    other: Seq<char>,
)
    requires
        other != key,
    ensures
        field_of(put(fields, key, value), other) == field_of(fields, other),
    decreases fields.len(),
{
    if fields.len() == 0 {
        reveal_with_fuel(field_of, 2);
        assert(seq![(key, value)].drop_first() =~= seq![]);
    } else if fields[0].0 == key {
        assert(fields.update(0, (key, value)).drop_first() =~= fields.drop_first());
    } else {
        law_set_keeps_others(fields.drop_first(), key, value, other);
        assert((seq![fields[0]] + put(fields.drop_first(), key, value)).drop_first() =~= put(
            fields.drop_first(),
            key,
            value,
        ));
    }
}

/// A field that was removed is gone.
pub proof fn law_removed_is_gone(fields: Seq<(Seq<char>, JsonView)>, key: Seq<char>)
    ensures
        field_of(without_key(fields, key), key) is None,
    decreases fields.len(),
{
    if fields.len() > 0 {
        let rest = without_key(fields.drop_first(), key);
        law_removed_is_gone(fields.drop_first(), key);
        if fields[0].0 != key {
            assert((seq![fields[0]] + rest).drop_first() =~= rest);
        }
    }
}

/// Removing a field leaves the others as they are.
pub proof fn law_remove_keeps_others(
    fields: Seq<(Seq<char>, JsonView)>,
    key: Seq<char>,
    other: Seq<char>,
)
    requires
        other != key,
    ensures
        field_of(without_key(fields, key), other) == field_of(fields, other),
    decreases fields.len(),
{
    if fields.len() > 0 {
        let rest = without_key(fields.drop_first(), key);
        law_remove_keeps_others(fields.drop_first(), key, other);
        if fields[0].0 != key {
            assert((seq![fields[0]] + rest).drop_first() =~= rest);
        }
    }
}

/// A field that was added at the end is found where no field before it has its
/// key; the fields before it are found as before.
pub proof fn lemma_entry_get(
    fields: Seq<(Seq<char>, JsonView)>,
    key: Seq<char>,
    value: JsonView,
    wanted: Seq<char>,
)
    ensures
        field_of(fields.push((key, value)), wanted) == if field_of(fields, wanted) is Some {
            field_of(fields, wanted)
        } else if key == wanted {
            Some(value)
        } else {
            None
        },
    decreases fields.len(),
{
    if fields.len() == 0 {
        assert(fields.push((key, value)).drop_first() =~= seq![]);
    } else {
        assert(fields.push((key, value)).drop_first() =~= fields.drop_first().push((key, value)));
        lemma_entry_get(fields.drop_first(), key, value, wanted);
    }
}

/// A field of an object that one more field was put into.
pub broadcast proof fn lemma_entry_field(
    object: JsonView,
    key: Seq<char>,
    value: JsonView,
    wanted: Seq<char>,
)
    requires
        object is Object,
    ensures
        #[trigger] object.entry(key, value).get(wanted) == (if object.get(wanted) is Some {
            object.get(wanted)
        } else if key == wanted {
            Some(value)
        } else {
            None
        }),
{
    lemma_entry_get(object->Object_0, key, value, wanted);
}

/// A field of an object of which a field was set.
pub broadcast proof fn lemma_with_field(
    object: JsonView,
    key: Seq<char>,
    value: JsonView,
    wanted: Seq<char>,
)
    requires
        object is Object,
    ensures
        #[trigger] object.with(key, value).get(wanted) == (if key == wanted {
            Some(value)
        } else {
            object.get(wanted)
        }),
{
    if key == wanted {
        law_set_then_get(object->Object_0, key, value);
    } else {
        law_set_keeps_others(object->Object_0, key, value, wanted);
    }
}

/// JSON text as bytes.
pub fn render_bytes(json: &Json) -> (bytes: Vec<u8>)
    ensures
        bytes@ == encode_utf8(rendered(json@)),
{
    let text = render_json(json);
    vstd::slice::slice_to_vec(text.as_str().as_bytes())
}

/// A field that comes behind all others is put at the end.
proof fn lemma_placed_last(
    fields: Seq<(Seq<char>, JsonView)>,
    key: Seq<char>,
    value: JsonView,
)
    requires
        forall|i: int| 0 <= i < fields.len() ==> key_less((#[trigger] fields[i]).0, key),
    ensures
        placed(fields, key, value) == fields.push((key, value)),
    decreases fields.len(),
{
    if fields.len() == 0 {
        assert(seq![(key, value)] =~= fields.push((key, value)));
    } else {
        assert(key_less(fields[0].0, key));
        crate::names::lemma_key_less_total(fields[0].0, key);
        let rest = fields.drop_first();
        assert forall|i: int| 0 <= i < rest.len() implies key_less((#[trigger] rest[i]).0, key) by {
            assert(rest[i] == fields[i + 1]);
        }
        lemma_placed_last(rest, key, value);
        assert(seq![fields[0]] + rest.push((key, value)) =~= fields.push((key, value)));
    }
}

/// Fields whose keys ascend are in order already.
pub proof fn lemma_ascending_fields(fields: Seq<(Seq<char>, JsonView)>)
    requires
        forall|i: int, j: int|
            0 <= i < j < fields.len() ==> key_less(
                (#[trigger] fields[i]).0,
                (#[trigger] fields[j]).0,
            ),
    ensures
        by_key(fields) == fields,
    decreases fields.len(),
{
    if fields.len() > 0 {
        let front = fields.drop_last();
        assert forall|i: int, j: int| 0 <= i < j < front.len() implies key_less(
            (#[trigger] front[i]).0,
            (#[trigger] front[j]).0,
        ) by {
            assert(key_less(fields[i].0, fields[j].0));
        }
        lemma_ascending_fields(front);
        assert forall|i: int| 0 <= i < front.len() implies key_less(
            (#[trigger] front[i]).0,
            fields.last().0,
        ) by {
            assert(key_less(fields[i].0, fields[fields.len() - 1].0));
        }
        lemma_placed_last(front, fields.last().0, fields.last().1);
        assert(front.push(fields.last()) =~= fields);
    } else {
        assert(by_key(fields) =~= fields);
    }
}

proof fn lemma_placed_field(
    fields: Seq<(Seq<char>, JsonView)>,
    key: Seq<char>,
    value: JsonView,
    wanted: Seq<char>,
)
    ensures
        field_of(placed(fields, key, value), wanted) == (if wanted == key {
            Some(value)
        } else {
            field_of(fields, wanted)
        }),
    decreases fields.len(),
{
    reveal_with_fuel(field_of, 2);
    let result = placed(fields, key, value);
    if fields.len() == 0 {
        assert(result.drop_first() =~= seq![]);
    } else if fields[0].0 == key {
        assert(result.drop_first() =~= fields.drop_first());
    } else if key_less(key, fields[0].0) {
        assert(result.drop_first() =~= fields);
    } else {
        lemma_placed_field(fields.drop_first(), key, value, wanted);
        assert(result[0] == fields[0]);
        assert(result.drop_first() =~= placed(fields.drop_first(), key, value));
    }
}

/// Whether no two fields have the same key.
pub open spec fn distinct_keys(fields: Seq<(Seq<char>, JsonView)>) -> bool {
    forall|i: int, j: int|
        0 <= i < j < fields.len() ==> (#[trigger] fields[i]).0 != (#[trigger] fields[j]).0
}

/// Whether no two fields of a value have the same key.
pub open spec fn keys_differ(value: JsonView) -> bool {
    match value {
        JsonView::Object(fields) => distinct_keys(fields),
        _ => true,
    }
}

proof fn lemma_field_by_key(fields: Seq<(Seq<char>, JsonView)>, wanted: Seq<char>)
    requires
        distinct_keys(fields),
    ensures
        field_of(by_key(fields), wanted) == field_of(fields, wanted),
    decreases fields.len(),
{
    if fields.len() > 0 {
        let front = fields.drop_last();
        let last = fields.last();
        assert forall|i: int, j: int| 0 <= i < j < front.len() implies (#[trigger] front[i]).0 != (
        #[trigger] front[j]).0 by {
            assert(fields[i].0 != fields[j].0);
        }
        lemma_field_by_key(front, wanted);
        lemma_placed_field(by_key(front), last.0, last.1, wanted);
        lemma_entry_get(front, last.0, last.1, wanted);
        assert(front.push(last) =~= fields);
        if field_of(front, wanted) is Some && wanted == last.0 {
            let index = lemma_field_index(front, wanted);
            assert(fields[index].0 != fields[fields.len() - 1].0);
        }
    }
}

proof fn lemma_ordered_field(fields: Seq<(Seq<char>, JsonView)>, wanted: Seq<char>)
    ensures
        field_of(ordered_fields(fields), wanted) == (match field_of(fields, wanted) {
            Some(value) => Some(ordered(value)),
            None => None,
        }),
    decreases fields.len(),
{
    if fields.len() > 0 {
        lemma_ordered_field(fields.drop_first(), wanted);
        assert(ordered_fields(fields).drop_first() =~= ordered_fields(fields.drop_first()));
    }
}

/// A field of a value in order is the field of the value, in order.
pub proof fn law_order_keeps_fields(value: JsonView, wanted: Seq<char>)
    requires
        keys_differ(value),
    ensures
        ordered(value).get(wanted) == (match value.get(wanted) {
            Some(field) => Some(ordered(field)),
            None => None,
        }),
{
    if let JsonView::Object(fields) = value {
        let inner = ordered_fields(fields);
        assert forall|i: int, j: int| 0 <= i < j < inner.len() implies (#[trigger] inner[i]).0 != (
        #[trigger] inner[j]).0 by {
            assert(fields[i].0 != fields[j].0);
        }
        lemma_field_by_key(inner, wanted);
        lemma_ordered_field(fields, wanted);
    }
}

/// Whether no two fields of an object have the same key, at any depth.
pub open spec fn keys_apart(value: JsonView) -> bool
    decreases value,
{
    match value {
        JsonView::Array(items) => forall|i: int|
            0 <= i < items.len() ==> keys_apart(#[trigger] items[i]),
        JsonView::Object(fields) => distinct_keys(fields) && forall|i: int|
            0 <= i < fields.len() ==> keys_apart((#[trigger] fields[i]).1),
        _ => true,
    }
}

/// The keys of a field are apart where those of the value are.
pub proof fn lemma_field_keys_apart(value: JsonView, key: Seq<char>)
    requires
        keys_apart(value),
        value.get(key) is Some,
    ensures
        keys_apart(value.get(key)->0),
{
    let index = lemma_field_index(value->Object_0, key);
    assert(keys_apart((value->Object_0)[index].1));
}

/// The keys of an item are apart where those of the list are.
pub proof fn lemma_item_keys_apart(items: Seq<JsonView>, index: int)
    requires
        0 <= index < items.len(),
        keys_apart(JsonView::Array(items)),
    ensures
        keys_apart(items[index]),
{
    let list = JsonView::Array(items);
    assert(list->Array_0[index] == items[index]);
}

/// A field that is set stays in its place, or comes last where there was none.
proof fn lemma_put_keys(fields: Seq<(Seq<char>, JsonView)>, key: Seq<char>, value: JsonView)
    ensures
        ({
            let after = put(fields, key, value);
            &&& fields.len() <= after.len() <= fields.len() + 1
            &&& forall|i: int| 0 <= i < fields.len() ==> (#[trigger] after[i]).0 == fields[i].0
            &&& after.len() > fields.len() ==> after[fields.len() as int].0 == key && forall|i: int|
                0 <= i < fields.len() ==> (#[trigger] fields[i]).0 != key
        }),
    decreases fields.len(),
{
    if fields.len() > 0 && fields[0].0 != key {
        let rest = fields.drop_first();
        lemma_put_keys(rest, key, value);
        let later = put(rest, key, value);
        let after = put(fields, key, value);
        assert forall|i: int| 0 <= i < fields.len() implies (#[trigger] after[i]).0
            == fields[i].0 by {
            if i > 0 {
                assert(after[i] == later[i - 1]);
                assert(rest[i - 1] == fields[i]);
            }
        }
        if after.len() > fields.len() {
            assert(after[fields.len() as int] == later[rest.len() as int]);
            assert forall|i: int| 0 <= i < fields.len() implies (#[trigger] fields[i]).0 != key by {
                if i > 0 {
                    assert(rest[i - 1] == fields[i]);
                }
            }
        }
    }
}

/// Setting a field leaves the keys of an object apart.
pub proof fn law_set_keeps_keys_apart(
    fields: Seq<(Seq<char>, JsonView)>,
    key: Seq<char>,
    value: JsonView,
)
    requires
        distinct_keys(fields),
    ensures
        distinct_keys(put(fields, key, value)),
{
    lemma_put_keys(fields, key, value);
    let after = put(fields, key, value);
    assert forall|i: int, j: int| 0 <= i < j < after.len() implies (#[trigger] after[i]).0 != (
    #[trigger] after[j]).0 by {
        assert(after[i].0 == fields[i].0);
        if j < fields.len() {
            assert(after[j].0 == fields[j].0);
            assert(fields[i].0 != fields[j].0);
        }
    }
}

/// Whether keys ascend.
spec fn keys_ascend(fields: Seq<(Seq<char>, JsonView)>) -> bool {
    forall|i: int, j: int|
        0 <= i < j < fields.len() ==> key_less((#[trigger] fields[i]).0, (#[trigger] fields[j]).0)
}

proof fn lemma_placed_ascends(
    fields: Seq<(Seq<char>, JsonView)>,
    key: Seq<char>,
    value: JsonView,
)
    requires
        keys_ascend(fields),
    ensures
        keys_ascend(placed(fields, key, value)),
        placed(fields, key, value).len() > 0,
        placed(fields, key, value)[0].0 == key || fields.len() > 0 && placed(fields, key, value)[0].0
            == fields[0].0 && key_less(fields[0].0, key),
        forall|i: int|
            0 <= i < placed(fields, key, value).len() ==> (#[trigger] placed(
                fields,
                key,
                value,
            )[i]) == (key, value) || fields.contains(placed(fields, key, value)[i]),
    decreases fields.len(),
{
    let after = placed(fields, key, value);
    if fields.len() == 0 {
    } else {
        let rest = fields.drop_first();
        crate::names::lemma_key_less_total(fields[0].0, key);
        assert(fields.contains(fields[0]));
        assert forall|i: int| 0 <= i < rest.len() implies fields.contains(#[trigger] rest[i]) by {
            assert(rest[i] == fields[i + 1]);
        }
        assert forall|i: int, j: int| 0 <= i < j < rest.len() implies key_less(
            (#[trigger] rest[i]).0,
            (#[trigger] rest[j]).0,
        ) by {
            assert(rest[i] == fields[i + 1] && rest[j] == fields[j + 1]);
        }
        if fields[0].0 == key {
            assert forall|i: int| 0 <= i < after.len() implies (#[trigger] after[i]) == (key, value)
                || fields.contains(after[i]) by {
                if i > 0 {
                    assert(after[i] == fields[i]);
                }
            }
            assert forall|i: int, j: int| 0 <= i < j < after.len() implies key_less(
                (#[trigger] after[i]).0,
                (#[trigger] after[j]).0,
            ) by {
                assert(after[j] == fields[j] && after[i].0 == fields[i].0);
            }
        } else if key_less(key, fields[0].0) {
            assert forall|i: int| 0 <= i < after.len() implies (#[trigger] after[i]) == (key, value)
                || fields.contains(after[i]) by {
                if i > 0 {
                    assert(after[i] == fields[i - 1]);
                }
            }
            assert forall|i: int, j: int| 0 <= i < j < after.len() implies key_less(
                (#[trigger] after[i]).0,
                (#[trigger] after[j]).0,
            ) by {
                assert(after[j] == fields[j - 1]);
                if i > 0 {
                    assert(after[i] == fields[i - 1]);
                } else if j > 1 {
                    assert(key_less(fields[0].0, fields[j - 1].0));
                    crate::names::lemma_key_less_carries(key, fields[0].0, fields[j - 1].0);
                }
            }
        } else {
            lemma_placed_ascends(rest, key, value);
            let later = placed(rest, key, value);
            assert forall|i: int| 0 <= i < after.len() implies (#[trigger] after[i]) == (key, value)
                || fields.contains(after[i]) by {
                if i > 0 {
                    assert(after[i] == later[i - 1]);
                    if later[i - 1] != (key, value) {
                        let place = choose|place: int|
                            0 <= place < rest.len() && rest[place] == later[i - 1];
                        assert(fields[place + 1] == later[i - 1]);
                    }
                }
            }
            assert forall|i: int, j: int| 0 <= i < j < after.len() implies key_less(
                (#[trigger] after[i]).0,
                (#[trigger] after[j]).0,
            ) by {
                assert(after[j] == later[j - 1]);
                if i > 0 {
                    assert(after[i] == later[i - 1]);
                } else {
                    if rest.len() > 0 {
                        assert(key_less(fields[0].0, fields[1].0));
                    }
                    if j > 1 {
                        assert(key_less(later[0].0, later[j - 1].0));
                        crate::names::lemma_key_less_carries(
                            fields[0].0,
                            later[0].0,
                            later[j - 1].0,
                        );
                    }
                }
            }
        }
    }
}

proof fn lemma_by_key_ascends(fields: Seq<(Seq<char>, JsonView)>)
    ensures
        keys_ascend(by_key(fields)),
        forall|i: int|
            0 <= i < by_key(fields).len() ==> fields.contains(#[trigger] by_key(fields)[i]),
    decreases fields.len(),
{
    if fields.len() > 0 {
        let front = fields.drop_last();
        let before = by_key(front);
        lemma_by_key_ascends(front);
        lemma_placed_ascends(before, fields.last().0, fields.last().1);
        let after = by_key(fields);
        assert forall|i: int| 0 <= i < after.len() implies fields.contains(#[trigger] after[i]) by {
            if after[i] == fields.last() {
                assert(fields[fields.len() - 1] == after[i]);
            } else {
                let place = choose|place: int| 0 <= place < before.len() && before[place] == after[i];
                assert(front.contains(before[place]));
                let origin = choose|origin: int|
                    0 <= origin < front.len() && front[origin] == before[place];
                assert(fields[origin] == after[i]);
            }
        }
    }
}

/// The keys of a value with all fields in order are apart.
pub proof fn law_order_takes_keys_apart(value: JsonView)
    ensures
        keys_apart(ordered(value)),
    decreases value,
{
    match value {
        JsonView::Array(items) => {
            assert forall|i: int| 0 <= i < items.len() implies keys_apart(
                ordered(#[trigger] items[i]),
            ) by {
                law_order_takes_keys_apart(items[i]);
            }
            let others = ordered(value)->Array_0;
            assert forall|i: int| 0 <= i < others.len() implies keys_apart(#[trigger] others[i]) by {
                assert(others[i] == ordered(items[i]));
            }
        },
        JsonView::Object(fields) => {
            let inner = ordered_fields(fields);
            let others = by_key(inner);
            lemma_by_key_ascends(inner);
            assert forall|i: int, j: int| 0 <= i < j < others.len() implies (#[trigger] others[i]).0
                != (#[trigger] others[j]).0 by {
                crate::names::lemma_key_less_total(others[i].0, others[j].0);
            }
            assert forall|i: int| 0 <= i < others.len() implies keys_apart(
                (#[trigger] others[i]).1,
            ) by {
                assert(inner.contains(others[i]));
                let place = choose|place: int| 0 <= place < inner.len() && inner[place] == others[i];
                assert(decreases_to!(fields => fields[place]));
                assert(decreases_to!(fields[place] => fields[place].1));
                law_order_takes_keys_apart(fields[place].1);
                assert(inner[place].1 == ordered(fields[place].1));
            }
        },
        _ => {},
    }
}

} // verus!
