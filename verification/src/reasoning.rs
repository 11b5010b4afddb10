//! The reasoning that goes with a message.
use crate::json::{lemma_field_is_smaller, text, views, Json, JsonView};
use crate::text::{concat3, is_blank, join, joined, string_view, texts, trim, trimmed};
use vstd::prelude::*;
use vstd::string::*;

verus! {

/// The text, unless it is empty.
pub open spec fn not_empty(value: Seq<char>) -> Option<Seq<char>> {
    if value.len() > 0 {
        Some(value)
    } else {
        None
    }
}

/// The reasoning in a value: a text that is not blank, the reasoning of the
/// items of an array, or that of the first field of an object that has some.
pub open spec fn reasoning_in(value: JsonView) -> Option<Seq<char>>
    decreases value, 1int,
{
    match value {
        JsonView::Text(text) => not_empty(trim(text)),
        JsonView::Array(items) => not_empty(
            joined(reasoning_parts(items, items.len() as int), "\n\n"@),
        ),
        JsonView::Object(_) => if field_reasoning(value, "text"@) is Some {
            field_reasoning(value, "text"@)
        } else if field_reasoning(value, "content"@) is Some {
            field_reasoning(value, "content"@)
        } else if field_reasoning(value, "summary"@) is Some {
            field_reasoning(value, "summary"@)
        } else if field_reasoning(value, "summary_text"@) is Some {
            field_reasoning(value, "summary_text"@)
        } else {
            field_reasoning(value, "parts"@)
        },
        _ => None,
    }
}

/// The reasoning in a field.
pub open spec fn field_reasoning(value: JsonView, key: Seq<char>) -> Option<Seq<char>>
    decreases value, 0int,
{
    match value.get(key) {
        Some(child) => {
            proof {
                lemma_field_is_smaller(value, key);
            }
            reasoning_in(child)
        },
        None => None,
    }
}

/// The reasoning in the first items of a list, where there is some.
pub open spec fn reasoning_parts(items: Seq<JsonView>, count: int) -> Seq<Seq<char>>
    decreases items, count,
{
    if !(0 < count <= items.len()) {
        seq![]
    } else {
        let before = reasoning_parts(items, count - 1);
        match reasoning_in(items[count - 1]) {
            Some(reasoning) => before.push(reasoning),
            None => before,
        }
    }
}

fn reasoning_of_field(value: &Json, key: &str) -> (reasoning: Option<String>)
    ensures
        string_view(reasoning) == field_reasoning(value@, key@),
    decreases value@, 0int,
{
    match value.get(key) {
        Some(child) => {
            proof {
                lemma_field_is_smaller(value@, key@);
            }
            reasoning_text(child)
        },
        None => None,
    }
}

/// The reasoning in a value.
pub fn reasoning_text(value: &Json) -> (reasoning: Option<String>)
    ensures
        string_view(reasoning) == reasoning_in(value@),
    decreases value@, 1int,
{
    if let Some(content) = value.as_text() {
        let content = trimmed(content);
        return if content.as_str().is_empty() {
            None
        } else {
            Some(content)
        };
    }
    if let Some(items) = value.as_array() {
        let ghost all = views(items@);
        let mut parts: Vec<String> = Vec::new();
        assert(texts(parts@) =~= seq![]);
        let mut index: usize = 0;
        while index < items.len()
            invariant
                index <= items@.len(),
                all == views(items@),
                value@ == JsonView::Array(all),
                texts(parts@) == reasoning_parts(all, index as int),
            decreases items@.len() - index,
        {
            assert(all[index as int] == items@[index as int]@);
            assert(decreases_to!(value@ => value@->Array_0));
            assert(decreases_to!(all => all[index as int]));
            if let Some(part) = reasoning_text(&items[index]) {
                let ghost before = texts(parts@);
                let ghost added = part@;
                parts.push(part);
                assert(texts(parts@) =~= before.push(added));
            }
            index += 1;
        }
        let content = join(&parts, "\n\n");
        return if content.as_str().is_empty() {
            None
        } else {
            Some(content)
        };
    }
    if !value.is_object() {
        return None;
    }
    if let Some(found) = reasoning_of_field(value, "text") {
        return Some(found);
    }
    if let Some(found) = reasoning_of_field(value, "content") {
        return Some(found);
    }
    if let Some(found) = reasoning_of_field(value, "summary") {
        return Some(found);
    }
    if let Some(found) = reasoning_of_field(value, "summary_text") {
        return Some(found);
    }
    reasoning_of_field(value, "parts")
}

/// The reasoning of a reasoning item.
pub open spec fn item_reasoning(value: JsonView) -> Option<Seq<char>> {
    if field_reasoning(value, "reasoning_content"@) is Some {
        field_reasoning(value, "reasoning_content"@)
    } else if field_reasoning(value, "content"@) is Some {
        field_reasoning(value, "content"@)
    } else if field_reasoning(value, "text"@) is Some {
        field_reasoning(value, "text"@)
    } else {
        field_reasoning(value, "summary"@)
    }
}

/// The reasoning of a reasoning item.
pub fn response_reasoning_item_text(value: &Json) -> (reasoning: Option<String>)
    ensures
        string_view(reasoning) == item_reasoning(value@),
{
    if let Some(found) = reasoning_of_field(value, "reasoning_content") {
        return Some(found);
    }
    if let Some(found) = reasoning_of_field(value, "content") {
        return Some(found);
    }
    if let Some(found) = reasoning_of_field(value, "text") {
        return Some(found);
    }
    reasoning_of_field(value, "summary")
}

/// The reasoning that a message carries.
pub open spec fn message_reasoning(value: JsonView) -> Option<Seq<char>> {
    if field_reasoning(value, "reasoning_content"@) is Some {
        field_reasoning(value, "reasoning_content"@)
    } else if field_reasoning(value, "reasoning"@) is Some {
        field_reasoning(value, "reasoning"@)
    } else {
        field_reasoning(value, "reasoning_details"@)
    }
}

/// The reasoning that a message carries.
pub fn response_message_reasoning_text(value: &Json) -> (reasoning: Option<String>)
    ensures
        string_view(reasoning) == message_reasoning(value@),
{
    if let Some(found) = reasoning_of_field(value, "reasoning_content") {
        return Some(found);
    }
    if let Some(found) = reasoning_of_field(value, "reasoning") {
        return Some(found);
    }
    reasoning_of_field(value, "reasoning_details")
}

/// Reasoning that waits for its message, with more put behind it.
pub open spec fn with_reasoning(
    pending: Option<Seq<char>>,
    reasoning: Option<Seq<char>>,
) -> Option<Seq<char>> {
    match reasoning {
        Some(reasoning) => if trim(reasoning).len() == 0 {
            pending
        } else if pending matches Some(existing) && existing.len() > 0 {
            Some(pending->0 + "\n\n"@ + trim(reasoning))
        } else {
            Some(trim(reasoning))
        },
        None => pending,
    }
}

/// Puts more reasoning behind what waits for its message.
pub fn append_pending_reasoning(pending: &mut Option<String>, reasoning: Option<String>)
    ensures
        string_view(*final(pending)) == with_reasoning(
            string_view(*old(pending)),
            string_view(reasoning),
        ),
{
    let reasoning = match reasoning {
        Some(reasoning) => trimmed(&reasoning),
        None => {
            return;
        },
    };
    if reasoning.as_str().is_empty() {
        return;
    }
    let joined_text = match &*pending {
        Some(existing) => if existing.as_str().is_empty() {
            reasoning
        } else {
            concat3(existing, "\n\n", &reasoning)
        },
        None => reasoning,
    };
    *pending = Some(joined_text);
}

/// A message with reasoning put behind what it carries.
pub open spec fn carrying(message: JsonView, reasoning: Seq<char>) -> JsonView {
    let added = trim(reasoning);
    if added.len() == 0 {
        message
    } else if message.get_text("reasoning_content"@) matches Some(existing) && trim(existing).len()
        > 0 {
        message.with(
            "reasoning_content"@,
            JsonView::Text(message.get_text("reasoning_content"@)->0 + "\n\n"@ + added),
        )
    } else {
        message.with("reasoning_content"@, JsonView::Text(added))
    }
}

/// Puts reasoning behind what a message carries.
pub fn append_reasoning_content(message: Json, reasoning: &str) -> (result: Json)
    ensures
        result@ == carrying(message@, reasoning@),
{
    let added = trimmed(reasoning);
    if added.as_str().is_empty() {
        return message;
    }
    let content = match message.get_text("reasoning_content") {
        Some(existing) => if is_blank(existing) {
            added
        } else {
            concat3(existing, "\n\n", &added)
        },
        None => added,
    };
    message.with("reasoning_content", text(&content))
}

/// The reasoning of an item is its text, wherever it stands: as its content, or as
/// the text of a part of its summary.
pub proof fn law_reasoning_is_read_from_items(item: JsonView, part: JsonView, said: Seq<char>)
    requires
        trim(said) == said,
        said.len() > 0,
        item is Object,
    ensures
        item.get("reasoning_content"@) == Some(JsonView::Text(said)) ==> item_reasoning(item)
            == Some(said),
        item.get("reasoning_content"@) is None && item.get("content"@) is None && item.get("text"@)
            is None && item.get("summary"@) == Some(JsonView::Array(seq![part])) && part is Object
            && part.get("text"@) == Some(JsonView::Text(said)) ==> item_reasoning(item) == Some(
            said,
        ),
{
    assert(reasoning_in(JsonView::Text(said)) == Some(said));
    if part is Object && part.get("text"@) == Some(JsonView::Text(said)) {
        assert(field_reasoning(part, "text"@) == Some(said));
        assert(reasoning_in(part) == Some(said));
        let parts = seq![part];
        assert(reasoning_parts(parts, 0) =~= Seq::<Seq<char>>::empty());
        assert(reasoning_parts(parts, 1) =~= seq![said]) by {
            assert(parts[0] == part);
        }
        let list = JsonView::Array(parts);
        assert(joined(seq![said], "\n\n"@) == said);
        assert(reasoning_in(list) == Some(said));
    }
}

/// Reasoning that is put behind other reasoning loses none of either.
pub proof fn law_reasoning_is_added_up(before: Seq<char>, more: Seq<char>)
    requires
        before.len() > 0,
        trim(more) == more,
        more.len() > 0,
    ensures
        with_reasoning(None, Some(more)) == Some(more),
        with_reasoning(Some(before), None) == Some(before),
        with_reasoning(Some(before), Some(more)) == Some(before + "\n\n"@ + more),
{
}

} // verus!
