//! What was said before in a conversation, by the response that ended it.
use crate::json::{
    array, copy_all, ordered, parsed_json, read_as, readable, render_json, rendered, views, Json,
    JsonView, MAX_JSON_LEVELS,
};
use crate::text::{concat3, is_blank, same, trim};
use crate::tools::{
    all_clear, law_written_tools_are_restored, ordered_tools, restored_tools, storable,
    stored_tools, ChatToolContext, ToolView,
};
use vstd::prelude::*;
use vstd::string::*;
use vstd::utf8::*;

verus! {

/// How many conversations are kept.
pub const CHAT_HISTORY_CAPACITY: usize = 256;

/// A conversation: its messages and its tools.
#[derive(Debug)]
pub struct ChatHistoryEntry {
    pub messages: Vec<Json>,
    pub tool_context: ChatToolContext,
}

/// What a `ChatHistoryEntry` holds.
#[verifier::ext_equal]
pub struct EntryView {
    pub messages: Seq<JsonView>,
    pub tools: Seq<ToolView>,
}

impl View for ChatHistoryEntry {
    type V = EntryView;

    open spec fn view(&self) -> EntryView {
        EntryView { messages: views(self.messages@), tools: self.tool_context@ }
    }
}

/// A conversation that may be missing.
pub open spec fn entry_view(entry: Option<&ChatHistoryEntry>) -> Option<EntryView> {
    match entry {
        Some(entry) => Some(entry@),
        None => None,
    }
}

impl ChatHistoryEntry {
    /// A copy of the conversation.
    pub fn copy(&self) -> (entry: ChatHistoryEntry)
        ensures
            entry@ == self@,
    {
        ChatHistoryEntry {
            messages: copy_all(&self.messages),
            tool_context: self.tool_context.copy(),
        }
    }

    /// The conversation as it is kept on disk: its messages and its tools as
    /// JSON texts, which read back as the same values in order.
    pub fn to_stored(&self) -> (stored: (String, String))
        ensures
            stored.0@ == rendered(JsonView::Array(self@.messages)),
            stored.1@ == rendered(stored_tools(self@.tools)),
            readable(ordered(JsonView::Array(self@.messages)), MAX_JSON_LEVELS as int)
                ==> parsed_json(encode_utf8(stored.0@)) == read_as(
                ordered(JsonView::Array(self@.messages)),
            ),
            readable(ordered(stored_tools(self@.tools)), MAX_JSON_LEVELS as int) ==> parsed_json(
                encode_utf8(stored.1@),
            ) == read_as(ordered(stored_tools(self@.tools))),
    {
        let messages = array(copy_all(&self.messages));
        (render_json(&messages), render_json(&self.tool_context.to_persisted()))
    }

    /// The conversation that stored messages and tools give; none where the
    /// messages are no array.
    pub fn from_persisted(messages: &Json, tool_context: &Json) -> (entry: Option<ChatHistoryEntry>)
        ensures
            match entry {
                Some(entry) => messages@ == JsonView::Array(entry@.messages) && entry@.tools
                    == restored_tools(tool_context@),
                None => messages@ !is Array,
            },
    {
        match messages.as_array() {
            Some(items) => Some(
                ChatHistoryEntry {
                    messages: copy_all(items),
                    tool_context: ChatToolContext::from_persisted(tool_context),
                },
            ),
            None => None,
        }
    }
}

/// The key of a response of a provider.
pub open spec fn history_key(provider_id: Seq<char>, response_id: Seq<char>) -> Seq<char> {
    provider_id + ":"@ + response_id
}

/// The key of a response of a provider.
pub fn chat_history_key(provider_id: &str, response_id: &str) -> (key: String)
    ensures
        key@ == history_key(provider_id@, response_id@),
{
    concat3(provider_id, ":", response_id)
}

/// The conversation of a key.
pub open spec fn entry_of(entries: Seq<(Seq<char>, EntryView)>, key: Seq<char>) -> Option<EntryView>
    decreases entries.len(),
{
    if entries.len() == 0 {
        None
    } else if entries[0].0 == key {
        Some(entries[0].1)
    } else {
        entry_of(entries.drop_first(), key)
    }
}

/// The conversations with one set: in its place where its key is there, else
/// behind the others.
pub open spec fn with_entry(
    entries: Seq<(Seq<char>, EntryView)>,
    key: Seq<char>,
    entry: EntryView,
) -> Seq<(Seq<char>, EntryView)>
    decreases entries.len(),
{
    if entries.len() == 0 {
        seq![(key, entry)]
    } else if entries[0].0 == key {
        entries.update(0, (key, entry))
    } else {
        seq![entries[0]] + with_entry(entries.drop_first(), key, entry)
    }
}

/// The last conversations, as many as are kept.
pub open spec fn recent(entries: Seq<(Seq<char>, EntryView)>) -> Seq<(Seq<char>, EntryView)> {
    if entries.len() > CHAT_HISTORY_CAPACITY {
        entries.skip(entries.len() - CHAT_HISTORY_CAPACITY)
    } else {
        entries
    }
}

/// The conversations after one has been kept. One without a response is not.
pub open spec fn remembered(
    entries: Seq<(Seq<char>, EntryView)>,
    provider_id: Seq<char>,
    response_id: Seq<char>,
    entry: EntryView,
) -> Seq<(Seq<char>, EntryView)> {
    if trim(response_id).len() == 0 {
        entries
    } else {
        recent(with_entry(entries, history_key(provider_id, response_id), entry))
    }
}

/// The conversations that are kept, the oldest first.
#[derive(Debug)]
pub struct ChatHistoryStore {
    entries: Vec<(String, ChatHistoryEntry)>,
}

impl View for ChatHistoryStore {
    type V = Seq<(Seq<char>, EntryView)>;

    closed spec fn view(&self) -> Seq<(Seq<char>, EntryView)> {
        Seq::new(self.entries@.len(), |i: int| (self.entries@[i].0@, self.entries@[i].1@))
    }
}

proof fn lemma_with_entry_found(
    entries: Seq<(Seq<char>, EntryView)>,
    key: Seq<char>,
    entry: EntryView,
    index: int,
)
    requires
        0 <= index < entries.len(),
        entries[index].0 == key,
        forall|i: int| 0 <= i < index ==> (#[trigger] entries[i]).0 != key,
    ensures
        with_entry(entries, key, entry) == entries.update(index, (key, entry)),
    decreases entries.len(),
{
    if index > 0 {
        let rest = entries.drop_first();
        assert forall|i: int| 0 <= i < index - 1 implies (#[trigger] rest[i]).0 != key by {
            assert(rest[i] == entries[i + 1]);
        }
        lemma_with_entry_found(rest, key, entry, index - 1);
        assert(entries.update(index, (key, entry)) =~= seq![entries[0]] + rest.update(
            index - 1,
            (key, entry),
        ));
    }
}

proof fn lemma_with_entry_absent(
    entries: Seq<(Seq<char>, EntryView)>,
    key: Seq<char>,
    entry: EntryView,
)
    requires
        forall|i: int| 0 <= i < entries.len() ==> (#[trigger] entries[i]).0 != key,
    ensures
        with_entry(entries, key, entry) == entries.push((key, entry)),
    decreases entries.len(),
{
    if entries.len() > 0 {
        let rest = entries.drop_first();
        assert forall|i: int| 0 <= i < rest.len() implies (#[trigger] rest[i]).0 != key by {
            assert(rest[i] == entries[i + 1]);
        }
        lemma_with_entry_absent(rest, key, entry);
        assert(entries.push((key, entry)) =~= seq![entries[0]] + rest.push((key, entry)));
    } else {
        assert(entries.push((key, entry)) =~= seq![(key, entry)]);
    }
}

impl ChatHistoryStore {
    /// No conversations.
    pub fn new() -> (store: Self)
        ensures
            store@ == Seq::<(Seq<char>, EntryView)>::empty(),
    {
        let store = ChatHistoryStore { entries: Vec::new() };
        assert(store@ =~= Seq::empty());
        store
    }

    /// The conversation that a response of a provider ended.
    pub fn load_chat_history(&self, provider_id: &str, response_id: &str) -> (entry: Option<
        &ChatHistoryEntry,
    >)
        ensures
            entry_view(entry) == entry_of(self@, history_key(provider_id@, response_id@)),
    {
        let key = chat_history_key(provider_id, response_id);
        let ghost all = self@;
        assert(all.skip(0) =~= all);
        let mut index: usize = 0;
        while index < self.entries.len()
            invariant
                index <= self.entries@.len(),
                all == self@,
                key@ == history_key(provider_id@, response_id@),
                entry_of(all, key@) == entry_of(all.skip(index as int), key@),
            decreases self.entries@.len() - index,
        {
            assert(all.skip(index as int)[0] == all[index as int]);
            assert(all.skip(index as int).drop_first() =~= all.skip(index + 1));
            if same(&self.entries[index].0, &key) {
                return Some(&self.entries[index].1);
            }
            index += 1;
        }
        None
    }

    fn put(&mut self, key: String, entry: ChatHistoryEntry)
        ensures
            final(self)@ == with_entry(old(self)@, key@, entry@),
    {
        let ghost before = self@;
        let mut index: usize = 0;
        while index < self.entries.len()
            invariant
                index <= self.entries@.len(),
                before == self@,
                before == old(self)@,
                forall|i: int| 0 <= i < index ==> (#[trigger] before[i]).0 != key@,
            decreases self.entries@.len() - index,
        {
            assert(before[index as int].0 == self.entries@[index as int].0@);
            if same(&self.entries[index].0, &key) {
                proof {
                    lemma_with_entry_found(before, key@, entry@, index as int);
                }
                let ghost set_to = (key@, entry@);
                self.entries.set(index, (key, entry));
                assert(self@ =~= before.update(index as int, set_to));
                return;
            }
            index += 1;
        }
        proof {
            lemma_with_entry_absent(before, key@, entry@);
        }
        let ghost added = (key@, entry@);
        self.entries.push((key, entry));
        assert(self@ =~= before.push(added));
    }

    /// Keeps a conversation. The oldest ones go when there are too many.
    pub fn cache_chat_history(
        &mut self,
        provider_id: &str,
        response_id: &str,
        entry: ChatHistoryEntry,
    )
        ensures
            final(self)@ == recent(
                with_entry(old(self)@, history_key(provider_id@, response_id@), entry@),
            ),
    {
        self.put(chat_history_key(provider_id, response_id), entry);
        let ghost all = self@;
        assert(all.skip(0) =~= all);
        let ghost mut dropped: int = 0;
        while self.entries.len() > CHAT_HISTORY_CAPACITY
            invariant
                0 <= dropped <= all.len(),
                self@ == all.skip(dropped),
                dropped > 0 ==> all.len() - dropped >= CHAT_HISTORY_CAPACITY,
                all == with_entry(old(self)@, history_key(provider_id@, response_id@), entry@),
            decreases self.entries@.len(),
        {
            let ghost current = self@;
            self.entries.remove(0);
            proof {
                assert(self@ =~= current.skip(1));
                assert(current.skip(1) =~= all.skip(dropped + 1));
                dropped = dropped + 1;
            }
        }
    }

    /// Keeps a conversation that a response ended.
    pub fn store_chat_history(
        &mut self,
        provider_id: &str,
        response_id: &str,
        entry: ChatHistoryEntry,
    )
        ensures
            final(self)@ == remembered(old(self)@, provider_id@, response_id@, entry@),
    {
        if is_blank(response_id) {
            return;
        }
        self.cache_chat_history(provider_id, response_id, entry);
    }
}

/// No more conversations are kept than there is room for, whatever was kept
/// before.
pub proof fn law_history_is_bounded(
    entries: Seq<(Seq<char>, EntryView)>,
    provider_id: Seq<char>,
    response_id: Seq<char>,
    entry: EntryView,
)
    requires
        entries.len() <= CHAT_HISTORY_CAPACITY,
    ensures
        remembered(entries, provider_id, response_id, entry).len() <= CHAT_HISTORY_CAPACITY,
{
}

proof fn lemma_with_entry_length(
    entries: Seq<(Seq<char>, EntryView)>,
    key: Seq<char>,
    entry: EntryView,
)
    ensures
        entries.len() <= with_entry(entries, key, entry).len() <= entries.len() + 1,
        entry_of(with_entry(entries, key, entry), key) == Some(entry),
        with_entry(entries, key, entry).len() > entries.len() ==> entry_of(entries, key) is None
            && with_entry(entries, key, entry).last() == (key, entry),
    decreases entries.len(),
{
    if entries.len() > 0 && entries[0].0 != key {
        let rest = with_entry(entries.drop_first(), key, entry);
        lemma_with_entry_length(entries.drop_first(), key, entry);
        assert((seq![entries[0]] + rest).drop_first() =~= rest);
        if rest.len() > entries.drop_first().len() {
            assert((seq![entries[0]] + rest).last() == rest.last());
        }
    }
}

/// A conversation that was kept is found by its provider and its response.
pub proof fn law_kept_history_is_found(
    entries: Seq<(Seq<char>, EntryView)>,
    provider_id: Seq<char>,
    response_id: Seq<char>,
    entry: EntryView,
)
    requires
        entries.len() <= CHAT_HISTORY_CAPACITY,
        trim(response_id).len() > 0,
    ensures
        entry_of(
            remembered(entries, provider_id, response_id, entry),
            history_key(provider_id, response_id),
        ) == Some(entry),
{
    let key = history_key(provider_id, response_id);
    let all = with_entry(entries, key, entry);
    lemma_with_entry_length(entries, key, entry);
    if all.len() > CHAT_HISTORY_CAPACITY {
        assert(entries[0].0 != key);
        assert(all.skip(1) =~= all.drop_first());
    }
}

proof fn lemma_with_entry_others(
    entries: Seq<(Seq<char>, EntryView)>,
    key: Seq<char>,
    entry: EntryView,
    other: Seq<char>,
)
    requires
        other != key,
    ensures
        entry_of(with_entry(entries, key, entry), other) == entry_of(entries, other),
    decreases entries.len(),
{
    if entries.len() == 0 {
        reveal_with_fuel(entry_of, 2);
        assert(seq![(key, entry)].drop_first() =~= seq![]);
    } else if entries[0].0 == key {
        assert(entries.update(0, (key, entry)).drop_first() =~= entries.drop_first());
    } else {
        let rest = with_entry(entries.drop_first(), key, entry);
        lemma_with_entry_others(entries.drop_first(), key, entry, other);
        assert((seq![entries[0]] + rest).drop_first() =~= rest);
    }
}

/// Keeping a conversation leaves those of other keys as they are, while there
/// is room.
pub proof fn law_keeping_history_leaves_others(
    entries: Seq<(Seq<char>, EntryView)>,
    provider_id: Seq<char>,
    response_id: Seq<char>,
    entry: EntryView,
    other: Seq<char>,
)
    requires
        entries.len() < CHAT_HISTORY_CAPACITY,
        other != history_key(provider_id, response_id),
    ensures
        entry_of(remembered(entries, provider_id, response_id, entry), other) == entry_of(
            entries,
            other,
        ),
{
    let key = history_key(provider_id, response_id);
    lemma_with_entry_length(entries, key, entry);
    lemma_with_entry_others(entries, key, entry, other);
}

/// A conversation with all fields in order.
pub open spec fn ordered_entry(entry: EntryView) -> EntryView {
    EntryView {
        messages: Seq::new(entry.messages.len(), |i: int| ordered(entry.messages[i])),
        tools: ordered_tools(entry.tools),
    }
}

/// A conversation that was kept on disk is restored as it was, but for the order
/// of fields: what its texts read back as gives the same messages and tools.
pub proof fn law_stored_conversations_are_restored(entry: EntryView)
    requires
        storable(entry.tools),
        all_clear(entry.tools),
    ensures
        ordered(JsonView::Array(entry.messages)) == JsonView::Array(ordered_entry(entry).messages),
        restored_tools(ordered(stored_tools(entry.tools))) == ordered_entry(entry).tools,
{
    law_written_tools_are_restored(entry.tools);
    assert(ordered(JsonView::Array(entry.messages))->Array_0 =~= ordered_entry(entry).messages);
}

/// Conversations of different providers, and of different responses of one, are
/// kept apart.
pub proof fn law_conversations_are_kept_apart(
    provider: Seq<char>,
    other: Seq<char>,
    response: Seq<char>,
    later: Seq<char>,
)
    ensures
        provider != other ==> history_key(provider, response) != history_key(other, response),
        response != later ==> history_key(provider, response) != history_key(provider, later),
{
    let one = history_key(provider, response);
    let two = history_key(other, response);
    let three = history_key(provider, later);
    reveal_strlit(":");
    if one == two {
        assert(one.take(one.len() - 1 - response.len()) =~= provider);
        assert(two.take(two.len() - 1 - response.len()) =~= other);
    }
    if one == three {
        assert(one.skip(provider.len() as int + 1) =~= response);
        assert(three.skip(provider.len() as int + 1) =~= later);
    }
}

/// A response without an identifier is not kept, and changes nothing.
pub proof fn law_nameless_responses_are_not_kept(
    entries: Seq<(Seq<char>, EntryView)>,
    provider_id: Seq<char>,
    response_id: Seq<char>,
    entry: EntryView,
)
    requires
        trim(response_id).len() == 0,
    ensures
        remembered(entries, provider_id, response_id, entry) == entries,
{
}

} // verus!
