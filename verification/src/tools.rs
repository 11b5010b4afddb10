//! The tools of a request, as a chat completion names and describes them.
use crate::failure::is_text;
use crate::json::{
    array, at, copy_all, either, field_of, field_views, get_at, key_less,
    keys_apart, keys_differ, law_order_keeps_fields, law_order_takes_keys_apart,
    law_set_keeps_keys_apart, law_set_keeps_others, law_set_then_get, lemma_ascending_fields,
    lemma_entry_get, lemma_field_is_smaller, lemma_field_keys_apart,
    lemma_item_keys_apart, obj, object, one_item, ordered, ordered_fields,
    render_json, rendered, seen, str_view, text, text_at, text_in, views, Json, JsonView,
};
use crate::text::{concat3, is_blank, same, string_view, trim, trimmed};
use crate::tool_names::{flat_name, flatten_namespace_tool_name};
use vstd::prelude::*;
use vstd::string::*;

verus! {

/// What a tool was in the request.
#[derive(Debug, Clone, Copy, PartialEq, Eq, Structural)]
pub enum ChatToolKind {
    Function,
    Namespace,
    Custom,
    ToolSearch,
}

/// What a tool was in the request, and how it was called there.
#[derive(Debug)]
pub struct ChatToolSpec {
    pub kind: ChatToolKind,
    pub name: String,
    pub namespace: Option<String>,
}

/// A tool under the name that the chat completion knows it by.
#[derive(Debug)]
pub struct ChatTool {
    pub chat_name: String,
    pub spec: ChatToolSpec,
    pub chat_tool: Json,
}

/// The tools of a request, in the order in which they were found.
#[derive(Debug)]
pub struct ChatToolContext {
    pub tools: Vec<ChatTool>,
}

/// What a `ChatTool` holds.
#[verifier::ext_equal]
pub struct ToolView {
    pub chat_name: Seq<char>,
    pub kind: ChatToolKind,
    pub name: Seq<char>,
    pub namespace: Option<Seq<char>>,
    pub chat_tool: JsonView,
}

impl View for ChatTool {
    type V = ToolView;

    open spec fn view(&self) -> ToolView {
        ToolView {
            chat_name: self.chat_name@,
            kind: self.spec.kind,
            name: self.spec.name@,
            namespace: string_view(self.spec.namespace),
            chat_tool: self.chat_tool@,
        }
    }
}

impl View for ChatToolContext {
    type V = Seq<ToolView>;

    open spec fn view(&self) -> Seq<ToolView> {
        Seq::new(self.tools@.len(), |i: int| self.tools@[i]@)
    }
}

/// The tool of a chat name.
pub open spec fn tool_named(tools: Seq<ToolView>, chat_name: Seq<char>) -> Option<ToolView>
    decreases tools.len(),
{
    if tools.len() == 0 {
        None
    } else if tools[0].chat_name == chat_name {
        Some(tools[0])
    } else {
        tool_named(tools.drop_first(), chat_name)
    }
}

/// The chat name of the last tool of a name in a namespace.
pub open spec fn namespaced_tool(
    tools: Seq<ToolView>,
    namespace: Seq<char>,
    name: Seq<char>,
) -> Option<Seq<char>>
    decreases tools.len(),
{
    if tools.len() == 0 {
        None
    } else if tools.last().namespace == Some(namespace) && tools.last().name == name {
        Some(tools.last().chat_name)
    } else {
        namespaced_tool(tools.drop_last(), namespace, name)
    }
}

/// The chat name of a function of the request.
pub open spec fn chat_name_of(
    tools: Seq<ToolView>,
    name: Seq<char>,
    namespace: Option<Seq<char>>,
) -> Seq<char> {
    match namespace {
        Some(namespace) => if namespace.len() == 0 {
            name
        } else {
            match namespaced_tool(tools, namespace, name) {
                Some(chat_name) => chat_name,
                None => flat_name(namespace, name),
            }
        },
        None => name,
    }
}

/// The tools with one more, unless its chat name is blank or taken.
pub open spec fn with_tool(tools: Seq<ToolView>, tool: ToolView) -> Seq<ToolView> {
    if trim(tool.chat_name).len() == 0 || tool_named(tools, tool.chat_name) is Some {
        tools
    } else {
        tools.push(tool)
    }
}

/// The parameters of a function that names none.
pub open spec fn no_parameters() -> JsonView {
    obj().entry("type"@, JsonView::Text("object"@)).entry("properties"@, obj())
}

/// The parameters of a function as a chat completion takes them: an object
/// whose type is `object`.
pub open spec fn object_parameters(parameters: Option<JsonView>) -> JsonView {
    match parameters {
        Some(JsonView::Object(fields)) => {
            let value = JsonView::Object(fields);
            if value.get_text("type"@) == Some("object"@) {
                value
            } else {
                value.with("type"@, JsonView::Text("object"@))
            }
        },
        _ => no_parameters(),
    }
}

/// A function with its parameters as a chat completion takes them.
pub open spec fn with_object_parameters(function: JsonView) -> JsonView {
    function.with("parameters"@, object_parameters(function.get("parameters"@)))
}

/// A tool of type `function`.
pub open spec fn function_tool(function: JsonView) -> JsonView {
    obj().entry("type"@, JsonView::Text("function"@)).entry("function"@, function)
}

/// A value that may be missing, or null.
pub open spec fn or_null(value: Option<JsonView>) -> JsonView {
    match value {
        Some(value) => value,
        None => JsonView::Null,
    }
}

/// The function of a tool that describes it in its own fields.
pub open spec fn flat_function(tool: JsonView, chat_name: Seq<char>) -> JsonView {
    let parameters = match either(tool.get("parameters"@), tool.get("input_schema"@)) {
        Some(parameters) => parameters,
        None => no_parameters(),
    };
    let function = obj().entry("name"@, JsonView::Text(chat_name)).entry(
        "description"@,
        or_null(tool.get("description"@)),
    ).entry("parameters"@, parameters);
    match tool.get("strict"@) {
        Some(strict) => function.with("strict"@, strict),
        None => function,
    }
}

/// A function tool as a chat completion takes it.
pub open spec fn chat_function_tool(tool: JsonView, chat_name: Seq<char>) -> Option<JsonView> {
    if tool.get_text("type"@) != Some("function"@) {
        None
    } else {
        match tool.get("function"@) {
            Some(JsonView::Object(fields)) => Some(
                function_tool(
                    with_object_parameters(
                        JsonView::Object(fields).with("name"@, JsonView::Text(chat_name)),
                    ),
                ),
            ),
            _ => Some(function_tool(with_object_parameters(flat_function(tool, chat_name)))),
        }
    }
}

/// The name of a tool: `function.name`, else `name`, if it is not blank.
pub open spec fn tool_name(tool: JsonView) -> Option<Seq<char>> {
    match text_in(either(at(tool.get("function"@), "name"@), tool.get("name"@))) {
        Some(name) => if trim(name).len() > 0 {
            Some(trim(name))
        } else {
            None
        },
        None => None,
    }
}

/// The tools with a function tool added.
pub open spec fn with_function(
    tools: Seq<ToolView>,
    tool: JsonView,
    namespace: Option<Seq<char>>,
) -> Seq<ToolView> {
    match tool_name(tool) {
        Some(name) => {
            let chat_name = match namespace {
                Some(namespace) => flat_name(namespace, name),
                None => name,
            };
            match chat_function_tool(tool, chat_name) {
                Some(chat_tool) => with_tool(
                    tools,
                    ToolView {
                        chat_name,
                        kind: if namespace is Some {
                            ChatToolKind::Namespace
                        } else {
                            ChatToolKind::Function
                        },
                        name,
                        namespace,
                        chat_tool,
                    },
                ),
                None => tools,
            }
        },
        None => tools,
    }
}

/// The description of a custom tool, with its definition behind it.
pub open spec fn custom_description(tool: JsonView) -> Seq<char> {
    (match tool.get_text("description"@) {
        Some(description) => description,
        None => "Pass raw string input to the original custom tool."@,
    }) + "\n\nOriginal tool definition:\n"@ + rendered(tool)
}

/// A custom tool as a chat completion takes it: a function of one text.
pub open spec fn chat_custom_tool(tool: JsonView, name: Seq<char>) -> JsonView {
    function_tool(custom_function(tool, name))
}

/// The parameters of the function that a custom tool becomes.
pub open spec fn raw_parameters() -> JsonView {
    let input = obj().entry("type"@, JsonView::Text("string"@)).entry(
        "description"@,
        JsonView::Text("Raw string input for the original custom tool."@),
    );
    obj().entry("type"@, JsonView::Text("object"@)).entry(
        "properties"@,
        obj().entry("input"@, input),
    ).entry("required"@, JsonView::Array(seq![JsonView::Text("input"@)]))
}

/// The function that a custom tool becomes.
pub open spec fn custom_function(tool: JsonView, name: Seq<char>) -> JsonView {
    obj().entry("name"@, JsonView::Text(name)).entry(
        "description"@,
        JsonView::Text(custom_description(tool)),
    ).entry("parameters"@, raw_parameters())
}

/// The tools with a custom tool added.
pub open spec fn with_custom(tools: Seq<ToolView>, tool: JsonView) -> Seq<ToolView> {
    match tool_name(tool) {
        Some(name) => with_tool(
            tools,
            ToolView {
                chat_name: name,
                kind: ChatToolKind::Custom,
                name,
                namespace: None,
                chat_tool: chat_custom_tool(tool, name),
            },
        ),
        None => tools,
    }
}

/// The search for tools as a chat completion takes it.
pub open spec fn chat_tool_search() -> JsonView {
    function_tool(tool_search_function())
}

/// The function that the search for tools becomes.
pub open spec fn tool_search_function() -> JsonView {
    let properties = obj().entry("query"@, obj().entry("type"@, JsonView::Text("string"@))).entry(
        "limit"@,
        obj().entry("type"@, JsonView::Text("integer"@)),
    );
    let parameters = obj().entry("type"@, JsonView::Text("object"@)).entry(
        "properties"@,
        properties,
    ).entry("required"@, JsonView::Array(seq![JsonView::Text("query"@)]));
    obj().entry("name"@, JsonView::Text("tool_search"@)).entry(
        "description"@,
        JsonView::Text(
            "Search and load Codex tools, plugins, connectors, and MCP namespaces for the current task."@,
        ),
    ).entry("parameters"@, parameters)
}

/// The tools with the search for tools added.
pub open spec fn with_tool_search(tools: Seq<ToolView>) -> Seq<ToolView> {
    with_tool(
        tools,
        ToolView {
            chat_name: "tool_search"@,
            kind: ChatToolKind::ToolSearch,
            name: "tool_search"@,
            namespace: None,
            chat_tool: chat_tool_search(),
        },
    )
}

/// The tools with the first functions of a namespace added.
pub open spec fn with_children(
    tools: Seq<ToolView>,
    namespace: Seq<char>,
    children: Seq<JsonView>,
    count: int,
) -> Seq<ToolView>
    decreases count,
{
    if !(0 < count <= children.len()) {
        tools
    } else {
        let before = with_children(tools, namespace, children, count - 1);
        if children[count - 1].get_text("type"@) == Some("function"@) {
            with_function(before, children[count - 1], Some(namespace))
        } else {
            before
        }
    }
}

/// The tools with a namespace of functions added.
pub open spec fn with_namespace(tools: Seq<ToolView>, tool: JsonView) -> Seq<ToolView> {
    match (tool.get_text("name"@), either(tool.get("tools"@), tool.get("children"@))) {
        (Some(namespace), Some(JsonView::Array(children))) => with_children(
            tools,
            namespace,
            children,
            children.len() as int,
        ),
        _ => tools,
    }
}

/// A custom tool that is given by its name alone.
pub open spec fn bare_custom_tool(name: Seq<char>) -> JsonView {
    obj().entry("type"@, JsonView::Text("custom"@)).entry("name"@, JsonView::Text(name))
}

/// The tools with a tool of a request added.
pub open spec fn with_response_tool(tools: Seq<ToolView>, tool: JsonView) -> Seq<ToolView> {
    match tool {
        JsonView::Text(name) => with_custom(tools, bare_custom_tool(name)),
        JsonView::Object(_) => {
            let kind = tool.get_text("type"@);
            if kind == Some("function"@) {
                with_function(tools, tool, None)
            } else if kind == Some("custom"@) {
                with_custom(tools, tool)
            } else if kind == Some("tool_search"@) {
                with_tool_search(tools)
            } else if kind == Some("namespace"@) {
                with_namespace(tools, tool)
            } else {
                tools
            }
        },
        _ => tools,
    }
}

/// The tools with the first tools of a list added.
pub open spec fn with_response_tools(
    tools: Seq<ToolView>,
    list: Seq<JsonView>,
    count: int,
) -> Seq<ToolView>
    decreases count,
{
    if !(0 < count <= list.len()) {
        tools
    } else {
        with_response_tool(with_response_tools(tools, list, count - 1), list[count - 1])
    }
}

/// The tools with a list of tools added, if it is there.
pub open spec fn with_tool_list(tools: Seq<ToolView>, list: Option<JsonView>) -> Seq<ToolView> {
    match list {
        Some(JsonView::Array(items)) => with_response_tools(tools, items, items.len() as int),
        _ => tools,
    }
}

impl ChatToolContext {
    /// No tools.
    pub fn new() -> (context: Self)
        ensures
            context@ == Seq::<ToolView>::empty(),
    {
        let context = ChatToolContext { tools: Vec::new() };
        assert(context@ =~= seq![]);
        context
    }

    /// The tool of a chat name.
    pub fn lookup(&self, chat_name: &str) -> (tool: Option<&ChatTool>)
        ensures
            match tool {
                Some(tool) => tool_named(self@, chat_name@) == Some(tool@),
                None => tool_named(self@, chat_name@) is None,
            },
    {
        let ghost all = self@;
        assert(all.skip(0) =~= all);
        let mut index: usize = 0;
        while index < self.tools.len()
            invariant
                index <= self.tools@.len(),
                all == self@,
                tool_named(all, chat_name@) == tool_named(all.skip(index as int), chat_name@),
            decreases self.tools@.len() - index,
        {
            assert(all.skip(index as int)[0] == self.tools@[index as int]@);
            assert(all.skip(index as int).drop_first() =~= all.skip(index + 1));
            if same(&self.tools[index].chat_name, chat_name) {
                return Some(&self.tools[index]);
            }
            index += 1;
        }
        None
    }

    /// The chat name of a function of the request.
    pub fn chat_name_for_response_function(&self, name: &str, namespace: Option<&str>) -> (chat_name:
        String)
        ensures
            chat_name@ == chat_name_of(self@, name@, str_view(namespace)),
    {
        let space = match namespace {
            Some(space) => space,
            None => {
                return name.to_owned();
            },
        };
        if space.is_empty() {
            return name.to_owned();
        }
        let ghost all = self@;
        let mut index: usize = self.tools.len();
        assert(all.take(index as int) =~= all);
        while index > 0
            invariant
                index <= self.tools@.len(),
                all == self@,
                str_view(namespace) == Some(space@),
                space@.len() > 0,
                namespaced_tool(all, space@, name@) == namespaced_tool(
                    all.take(index as int),
                    space@,
                    name@,
                ),
            decreases index,
        {
            let ghost head = all.take(index as int);
            assert(head.last() == self.tools@[index - 1]@);
            assert(head.drop_last() =~= all.take(index - 1));
            let spec = &self.tools[index - 1].spec;
            let within = match &spec.namespace {
                Some(own) => same(own, space),
                None => false,
            };
            if within && same(&spec.name, name) {
                return self.tools[index - 1].chat_name.clone();
            }
            index -= 1;
        }
        flatten_namespace_tool_name(space, name)
    }

    /// Adds a tool, unless its chat name is blank or taken.
    pub fn add_chat_tool(&mut self, tool: ChatTool)
        ensures
            final(self)@ == with_tool(old(self)@, tool@),
    {
        if is_blank(&tool.chat_name) || self.lookup(&tool.chat_name).is_some() {
            return;
        }
        let ghost added = tool@;
        self.tools.push(tool);
        assert(self@ =~= old(self)@.push(added));
    }
}

/// The parameters of a function that names none.
fn empty_parameters() -> (json: Json)
    ensures
        json@ == no_parameters(),
{
    object().entry("type", text("object")).entry("properties", object())
}

fn function_tool_of(function: Json) -> (json: Json)
    ensures
        json@ == function_tool(function@),
{
    object().entry("type", text("function")).entry("function", function)
}

/// Makes the parameters of a function an object whose type is `object`.
pub fn normalize_chat_function_parameters(function: Json) -> (json: Json)
    ensures
        json@ == with_object_parameters(function@),
{
    let parameters = match function.get("parameters") {
        Some(parameters) => {
            if !parameters.is_object() {
                empty_parameters()
            } else if is_text(parameters.get_text("type"), "object") {
                parameters.copy()
            } else {
                parameters.copy().with("type", text("object"))
            }
        },
        None => empty_parameters(),
    };
    function.with("parameters", parameters)
}

/// A copy of a value that may be missing, or null.
pub fn copy_or_null(value: Option<&Json>) -> (json: Json)
    ensures
        json@ == or_null(seen(value)),
{
    match value {
        Some(value) => value.copy(),
        None => Json::Null,
    }
}

/// The first of two values that is there.
pub fn first_of<'a>(first: Option<&'a Json>, second: Option<&'a Json>) -> (value: Option<&'a Json>)
    ensures
        seen(value) == either(seen(first), seen(second)),
{
    match first {
        Some(value) => Some(value),
        None => second,
    }
}

/// A function tool as a chat completion takes it.
pub fn response_function_tool_to_chat_tool(tool: &Json, chat_name: &str) -> (chat_tool: Option<Json>)
    ensures
        match chat_tool {
            Some(json) => chat_function_tool(tool@, chat_name@) == Some(json@),
            None => chat_function_tool(tool@, chat_name@) is None,
        },
{
    if !is_text(tool.get_text("type"), "function") {
        return None;
    }
    if let Some(function) = tool.get("function") {
        if function.is_object() {
            let named = function.copy().with("name", text(chat_name));
            return Some(function_tool_of(normalize_chat_function_parameters(named)));
        }
    }
    let parameters = match first_of(tool.get("parameters"), tool.get("input_schema")) {
        Some(parameters) => parameters.copy(),
        None => empty_parameters(),
    };
    let function = object().entry("name", text(chat_name)).entry(
        "description",
        copy_or_null(tool.get("description")),
    ).entry("parameters", parameters);
    let function = match tool.get("strict") {
        Some(strict) => function.with("strict", strict.copy()),
        None => function,
    };
    Some(function_tool_of(normalize_chat_function_parameters(function)))
}

/// The name of a tool.
pub fn response_tool_name(tool: &Json) -> (name: Option<String>)
    ensures
        string_view(name) == tool_name(tool@),
{
    match text_at(first_of(get_at(tool.get("function"), "name"), tool.get("name"))) {
        Some(name) => {
            let name = trimmed(name);
            if name.as_str().is_empty() {
                None
            } else {
                Some(name)
            }
        },
        None => None,
    }
}

fn custom_parameters() -> (json: Json)
    ensures
        json@ == raw_parameters(),
{
    let input = object().entry("type", text("string")).entry(
        "description",
        text("Raw string input for the original custom tool."),
    );
    object().entry("type", text("object")).entry("properties", object().entry("input", input)).entry(
        "required",
        one_item(text("input")),
    )
}

fn tool_search_tool() -> (json: Json)
    ensures
        json@ == chat_tool_search(),
{
    let properties = object().entry("query", object().entry("type", text("string"))).entry(
        "limit",
        object().entry("type", text("integer")),
    );
    let parameters = object().entry("type", text("object")).entry("properties", properties).entry(
        "required",
        one_item(text("query")),
    );
    function_tool_of(
        object().entry("name", text("tool_search")).entry(
            "description",
            text(
                "Search and load Codex tools, plugins, connectors, and MCP namespaces for the current task.",
            ),
        ).entry("parameters", parameters),
    )
}

/// A copy of a text that may be missing.
pub fn copy_text(value: Option<&str>) -> (copy: Option<String>)
    ensures
        string_view(copy) == str_view(value),
{
    match value {
        Some(value) => Some(value.to_owned()),
        None => None,
    }
}

impl ChatToolContext {
    /// Adds a function tool.
    pub fn add_function_tool(&mut self, tool: &Json, namespace: Option<&str>)
        ensures
            final(self)@ == with_function(old(self)@, tool@, str_view(namespace)),
    {
        let name = match response_tool_name(tool) {
            Some(name) => name,
            None => {
                return;
            },
        };
        let chat_name = match namespace {
            Some(space) => flatten_namespace_tool_name(space, &name),
            None => name.clone(),
        };
        if let Some(chat_tool) = response_function_tool_to_chat_tool(tool, &chat_name) {
            let kind = match namespace {
                Some(_) => ChatToolKind::Namespace,
                None => ChatToolKind::Function,
            };
            self.add_chat_tool(
                ChatTool {
                    chat_name,
                    spec: ChatToolSpec { kind, name, namespace: copy_text(namespace) },
                    chat_tool,
                },
            );
        }
    }

    /// Adds a custom tool.
    pub fn add_custom_tool(&mut self, tool: &Json)
        ensures
            final(self)@ == with_custom(old(self)@, tool@),
    {
        let name = match response_tool_name(tool) {
            Some(name) => name,
            None => {
                return;
            },
        };
        let definition = render_json(tool);
        let description = match tool.get_text("description") {
            Some(description) => concat3(
                description,
                "\n\nOriginal tool definition:\n",
                &definition,
            ),
            None => concat3(
                "Pass raw string input to the original custom tool.",
                "\n\nOriginal tool definition:\n",
                &definition,
            ),
        };
        let chat_tool = function_tool_of(
            object().entry("name", text(&name)).entry("description", text(&description)).entry(
                "parameters",
                custom_parameters(),
            ),
        );
        self.add_chat_tool(
            ChatTool {
                chat_name: name.clone(),
                spec: ChatToolSpec { kind: ChatToolKind::Custom, name, namespace: None },
                chat_tool,
            },
        );
    }

    /// Adds the search for tools.
    pub fn add_tool_search(&mut self)
        ensures
            final(self)@ == with_tool_search(old(self)@),
    {
        self.add_chat_tool(
            ChatTool {
                chat_name: "tool_search".to_owned(),
                spec: ChatToolSpec {
                    kind: ChatToolKind::ToolSearch,
                    name: "tool_search".to_owned(),
                    namespace: None,
                },
                chat_tool: tool_search_tool(),
            },
        );
    }

    /// Adds the functions of a namespace.
    pub fn add_namespace_tool(&mut self, tool: &Json)
        ensures
            final(self)@ == with_namespace(old(self)@, tool@),
    {
        let namespace = match tool.get_text("name") {
            Some(namespace) => namespace,
            None => {
                return;
            },
        };
        let children = match first_of(tool.get("tools"), tool.get("children")) {
            Some(children) => children,
            None => {
                return;
            },
        };
        if let Some(children) = children.as_array() {
            let ghost list = views(children@);
            let mut index: usize = 0;
            while index < children.len()
                invariant
                    index <= children@.len(),
                    list == views(children@),
                    self@ == with_children(old(self)@, namespace@, list, index as int),
                decreases children@.len() - index,
            {
                assert(list[index as int] == children@[index as int]@);
                if is_text(children[index].get_text("type"), "function") {
                    self.add_function_tool(&children[index], Some(namespace));
                }
                index += 1;
            }
        }
    }

    /// Adds a tool of a request.
    pub fn add_response_tool(&mut self, tool: &Json)
        ensures
            final(self)@ == with_response_tool(old(self)@, tool@),
    {
        if let Some(name) = tool.as_text() {
            let custom = object().entry("type", text("custom")).entry("name", text(name));
            self.add_custom_tool(&custom);
            return;
        }
        let kind = tool.get_text("type");
        if is_text(kind, "function") {
            self.add_function_tool(tool, None);
        } else if is_text(kind, "custom") {
            self.add_custom_tool(tool);
        } else if is_text(kind, "tool_search") {
            self.add_tool_search();
        } else if is_text(kind, "namespace") {
            self.add_namespace_tool(tool);
        }
    }

    /// Adds a list of tools, if it is there.
    pub fn add_response_tools(&mut self, list: Option<&Json>)
        ensures
            final(self)@ == with_tool_list(old(self)@, seen(list)),
    {
        let list = match list {
            Some(list) => list,
            None => {
                return;
            },
        };
        if let Some(items) = list.as_array() {
            let ghost all = views(items@);
            let mut index: usize = 0;
            while index < items.len()
                invariant
                    index <= items@.len(),
                    all == views(items@),
                    self@ == with_response_tools(old(self)@, all, index as int),
                decreases items@.len() - index,
            {
                assert(all[index as int] == items@[index as int]@);
                self.add_response_tool(&items[index]);
                index += 1;
            }
        }
    }
}

/// The tools with those added that a request holds in `additional_tools`, at
/// its top and below `input`, `override` and `overrides`.
pub open spec fn with_additional(tools: Seq<ToolView>, value: JsonView) -> Seq<ToolView>
    decreases value, 1int,
{
    match value {
        JsonView::Object(_) => {
            let own = with_tool_list(tools, value.get("additional_tools"@));
            let first = with_additional_in(own, value, "input"@);
            let second = with_additional_in(first, value, "override"@);
            with_additional_in(second, value, "overrides"@)
        },
        JsonView::Array(items) => with_additional_items(tools, items, items.len() as int),
        _ => tools,
    }
}

/// The tools with those added that a field of a request holds.
pub open spec fn with_additional_in(
    tools: Seq<ToolView>,
    value: JsonView,
    key: Seq<char>,
) -> Seq<ToolView>
    decreases value, 0int,
{
    match value.get(key) {
        Some(child) => {
            proof {
                lemma_field_is_smaller(value, key);
            }
            with_additional(tools, child)
        },
        None => tools,
    }
}

/// The tools with those added that the first items of a list hold.
pub open spec fn with_additional_items(
    tools: Seq<ToolView>,
    items: Seq<JsonView>,
    count: int,
) -> Seq<ToolView>
    decreases items, count,
{
    if !(0 < count <= items.len()) {
        tools
    } else {
        with_additional(with_additional_items(tools, items, count - 1), items[count - 1])
    }
}

/// The tools with those added that a value holds as the output of a search for
/// tools, at any depth.
pub open spec fn with_found(tools: Seq<ToolView>, value: JsonView) -> Seq<ToolView>
    decreases value, 0int,
{
    match value {
        JsonView::Array(items) => with_found_items(tools, items, items.len() as int),
        JsonView::Object(fields) => with_found_fields(
            if value.get_text("type"@) == Some("tool_search_output"@) {
                with_tool_list(tools, value.get("tools"@))
            } else {
                tools
            },
            fields,
            fields.len() as int,
        ),
        _ => tools,
    }
}

/// The tools with those added that were found in the first items of a list.
pub open spec fn with_found_items(
    tools: Seq<ToolView>,
    items: Seq<JsonView>,
    count: int,
) -> Seq<ToolView>
    decreases items, count,
{
    if !(0 < count <= items.len()) {
        tools
    } else {
        with_found(with_found_items(tools, items, count - 1), items[count - 1])
    }
}

/// The tools with those added that were found in the first fields of an object.
pub open spec fn with_found_fields(
    tools: Seq<ToolView>,
    fields: Seq<(Seq<char>, JsonView)>,
    count: int,
) -> Seq<ToolView>
    decreases fields, count,
{
    if !(0 < count <= fields.len()) {
        tools
    } else {
        with_found(with_found_fields(tools, fields, count - 1), fields[count - 1].1)
    }
}

/// The tools of a request.
pub open spec fn request_tools(value: JsonView) -> Seq<ToolView> {
    let own = with_tool_list(seq![], value.get("tools"@));
    let additional = with_additional(own, value);
    match value.get("input"@) {
        Some(input) => with_found(additional, input),
        None => additional,
    }
}

fn collect_additional_in(value: &Json, key: &str, context: &mut ChatToolContext)
    ensures
        final(context)@ == with_additional_in(old(context)@, value@, key@),
    decreases value@, 0int,
{
    if let Some(child) = value.get(key) {
        proof {
            lemma_field_is_smaller(value@, key@);
        }
        collect_additional_tools(child, context);
    }
}

/// Adds the tools that a request holds in `additional_tools`.
pub fn collect_additional_tools(value: &Json, context: &mut ChatToolContext)
    ensures
        final(context)@ == with_additional(old(context)@, value@),
    decreases value@, 1int,
{
    if let Some(items) = value.as_array() {
        let ghost all = views(items@);
        let mut index: usize = 0;
        while index < items.len()
            invariant
                index <= items@.len(),
                all == views(items@),
                value@ == JsonView::Array(all),
                context@ == with_additional_items(old(context)@, all, index as int),
            decreases items@.len() - index,
        {
            assert(all[index as int] == items@[index as int]@);
            assert(decreases_to!(value@ => value@->Array_0));
            assert(decreases_to!(all => all[index as int]));
            collect_additional_tools(&items[index], context);
            index += 1;
        }
    } else if value.is_object() {
        context.add_response_tools(value.get("additional_tools"));
        collect_additional_in(value, "input", context);
        collect_additional_in(value, "override", context);
        collect_additional_in(value, "overrides", context);
    }
}

/// Adds the tools that a value holds as the output of a search for tools.
pub fn collect_tool_search_output_tools(value: &Json, context: &mut ChatToolContext)
    ensures
        final(context)@ == with_found(old(context)@, value@),
    decreases value@,
{
    if let Some(items) = value.as_array() {
        let ghost all = views(items@);
        let mut index: usize = 0;
        while index < items.len()
            invariant
                index <= items@.len(),
                all == views(items@),
                value@ == JsonView::Array(all),
                context@ == with_found_items(old(context)@, all, index as int),
            decreases items@.len() - index,
        {
            assert(all[index as int] == items@[index as int]@);
            assert(decreases_to!(value@ => value@->Array_0));
            assert(decreases_to!(all => all[index as int]));
            collect_tool_search_output_tools(&items[index], context);
            index += 1;
        }
    } else if let Some(fields) = value.as_object() {
        if is_text(value.get_text("type"), "tool_search_output") {
            context.add_response_tools(value.get("tools"));
        }
        let ghost all = field_views(fields@);
        let ghost before = context@;
        let mut index: usize = 0;
        while index < fields.len()
            invariant
                index <= fields@.len(),
                all == field_views(fields@),
                value@ == JsonView::Object(all),
                context@ == with_found_fields(before, all, index as int),
            decreases fields@.len() - index,
        {
            assert(all[index as int].1 == fields@[index as int].1@);
            assert(decreases_to!(value@ => value@->Object_0));
            assert(decreases_to!(all => all[index as int]));
            assert(decreases_to!(all[index as int] => all[index as int].1));
            collect_tool_search_output_tools(&fields[index].1, context);
            index += 1;
        }
    }
}

/// The name that a chat completion gives to a kind of tool, in storage.
pub open spec fn kind_text(kind: ChatToolKind) -> Seq<char> {
    match kind {
        ChatToolKind::Function => "function"@,
        ChatToolKind::Namespace => "namespace"@,
        ChatToolKind::Custom => "custom"@,
        ChatToolKind::ToolSearch => "tool_search"@,
    }
}

/// A text that may be missing, or null.
pub open spec fn text_view(value: Option<Seq<char>>) -> JsonView {
    match value {
        Some(value) => JsonView::Text(value),
        None => JsonView::Null,
    }
}

/// What is stored of a tool beside its chat form.
pub open spec fn stored_spec(tool: ToolView) -> JsonView {
    obj().entry("chatName"@, JsonView::Text(tool.chat_name)).entry(
        "kind"@,
        JsonView::Text(kind_text(tool.kind)),
    ).entry("name"@, JsonView::Text(tool.name)).entry("namespace"@, text_view(tool.namespace))
}

/// What is stored of the tools of a request.
pub open spec fn stored_tools(tools: Seq<ToolView>) -> JsonView {
    obj().entry(
        "chatTools"@,
        JsonView::Array(Seq::new(tools.len(), |i: int| tools[i].chat_tool)),
    ).entry("specs"@, JsonView::Array(Seq::new(tools.len(), |i: int| stored_spec(tools[i]))))
}

/// The items of an array that may be missing.
pub open spec fn items_or_none(value: Option<JsonView>) -> Seq<JsonView> {
    match value {
        Some(JsonView::Array(items)) => items,
        _ => seq![],
    }
}

/// The name of the function that a chat tool describes.
pub open spec fn function_name(chat_tool: JsonView) -> Option<Seq<char>> {
    text_in(at(chat_tool.get("function"@), "name"@))
}

/// The first of some chat tools that describes a function of a name.
pub open spec fn described(chat_tools: Seq<JsonView>, name: Seq<char>) -> Option<JsonView>
    decreases chat_tools.len(),
{
    if chat_tools.len() == 0 {
        None
    } else if function_name(chat_tools[0]) == Some(name) {
        Some(chat_tools[0])
    } else {
        described(chat_tools.drop_first(), name)
    }
}

/// The kind of a tool that was stored.
pub open spec fn stored_kind(kind: Option<Seq<char>>) -> ChatToolKind {
    if kind == Some("custom"@) {
        ChatToolKind::Custom
    } else if kind == Some("namespace"@) {
        ChatToolKind::Namespace
    } else if kind == Some("tool_search"@) {
        ChatToolKind::ToolSearch
    } else {
        ChatToolKind::Function
    }
}

/// The tool that was stored under a chat name.
pub open spec fn restored_tool(
    spec: JsonView,
    chat_name: Seq<char>,
    chat_tools: Seq<JsonView>,
) -> ToolView {
    ToolView {
        chat_name,
        kind: stored_kind(spec.get_text("kind"@)),
        name: match spec.get_text("name"@) {
            Some(name) => name,
            None => chat_name,
        },
        namespace: spec.get_text("namespace"@),
        chat_tool: match described(chat_tools, chat_name) {
            Some(chat_tool) => chat_tool,
            None => function_tool(obj().entry("name"@, JsonView::Text(chat_name))),
        },
    }
}

/// The tools that the first of some stored ones give.
pub open spec fn restored_from(
    specs: Seq<JsonView>,
    chat_tools: Seq<JsonView>,
    count: int,
) -> Seq<ToolView>
    decreases count,
{
    if !(0 < count <= specs.len()) {
        seq![]
    } else {
        let before = restored_from(specs, chat_tools, count - 1);
        match specs[count - 1].get_text("chatName"@) {
            Some(chat_name) => with_tool(
                before,
                restored_tool(specs[count - 1], chat_name, chat_tools),
            ),
            None => before,
        }
    }
}

/// The tools that stored ones give.
pub open spec fn restored_tools(value: JsonView) -> Seq<ToolView> {
    let specs = items_or_none(value.get("specs"@));
    restored_from(specs, items_or_none(value.get("chatTools"@)), specs.len() as int)
}

/// The tools with the first of some earlier ones added.
pub open spec fn with_earlier(
    tools: Seq<ToolView>,
    earlier: Seq<ToolView>,
    count: int,
) -> Seq<ToolView>
    decreases count,
{
    if !(0 < count <= earlier.len()) {
        tools
    } else {
        let before = with_earlier(tools, earlier, count - 1);
        let chat_tool = earlier[count - 1].chat_tool;
        match function_name(chat_tool) {
            Some(name) => match tool_named(earlier, name) {
                Some(tool) => with_tool(before, ToolView { chat_name: name, chat_tool, ..tool }),
                None => before,
            },
            None => before,
        }
    }
}

fn find_described<'a>(chat_tools: &'a Vec<Json>, name: &str) -> (found: Option<&'a Json>)
    ensures
        seen(found) == described(views(chat_tools@), name@),
{
    let ghost all = views(chat_tools@);
    assert(all.skip(0) =~= all);
    let mut index: usize = 0;
    while index < chat_tools.len()
        invariant
            index <= chat_tools@.len(),
            all == views(chat_tools@),
            described(all, name@) == described(all.skip(index as int), name@),
        decreases chat_tools@.len() - index,
    {
        assert(all.skip(index as int)[0] == chat_tools@[index as int]@);
        assert(all.skip(index as int).drop_first() =~= all.skip(index + 1));
        if is_text(text_at(get_at(chat_tools[index].get("function"), "name")), name) {
            return Some(&chat_tools[index]);
        }
        index += 1;
    }
    None
}

/// Copies of the items of an array that may be missing.
pub fn copy_items(value: Option<&Json>) -> (items: Vec<Json>)
    ensures
        views(items@) == items_or_none(seen(value)),
{
    match value {
        Some(value) => match value.as_array() {
            Some(items) => copy_all(items),
            None => {
                let items: Vec<Json> = Vec::new();
                assert(views(items@) =~= seq![]);
                items
            },
        },
        None => {
            let items: Vec<Json> = Vec::new();
            assert(views(items@) =~= seq![]);
            items
        },
    }
}

impl ChatTool {
    /// A copy of the tool.
    pub fn copy(&self) -> (tool: ChatTool)
        ensures
            tool@ == self@,
    {
        ChatTool {
            chat_name: self.chat_name.clone(),
            spec: ChatToolSpec {
                kind: self.spec.kind,
                name: self.spec.name.clone(),
                namespace: match &self.spec.namespace {
                    Some(namespace) => Some(namespace.clone()),
                    None => None,
                },
            },
            chat_tool: self.chat_tool.copy(),
        }
    }
}

impl ChatToolContext {
    /// The tools of a request.
    pub fn from_request(value: &Json) -> (context: Self)
        ensures
            context@ == request_tools(value@),
    {
        let mut context = ChatToolContext::new();
        context.add_response_tools(value.get("tools"));
        collect_additional_tools(value, &mut context);
        if let Some(input) = value.get("input") {
            collect_tool_search_output_tools(input, &mut context);
        }
        context
    }

    /// The tools as a chat completion takes them.
    pub fn chat_tools(&self) -> (list: Vec<Json>)
        ensures
            views(list@) == Seq::new(self@.len(), |i: int| self@[i].chat_tool),
    {
        let mut list: Vec<Json> = Vec::new();
        let mut index: usize = 0;
        while index < self.tools.len()
            invariant
                index <= self.tools@.len(),
                list@.len() == index,
                forall|i: int| 0 <= i < index ==> (#[trigger] list@[i])@ == self@[i].chat_tool,
            decreases self.tools@.len() - index,
        {
            list.push(self.tools[index].chat_tool.copy());
            index += 1;
        }
        assert(views(list@) =~= Seq::new(self@.len(), |i: int| self@[i].chat_tool));
        list
    }

    /// What is stored of the tools.
    pub fn to_persisted(&self) -> (value: Json)
        ensures
            value@ == stored_tools(self@),
    {
        let mut specs: Vec<Json> = Vec::new();
        let mut index: usize = 0;
        while index < self.tools.len()
            invariant
                index <= self.tools@.len(),
                specs@.len() == index,
                forall|i: int| 0 <= i < index ==> (#[trigger] specs@[i])@ == stored_spec(self@[i]),
            decreases self.tools@.len() - index,
        {
            let tool = &self.tools[index];
            let kind = match tool.spec.kind {
                ChatToolKind::Function => "function",
                ChatToolKind::Namespace => "namespace",
                ChatToolKind::Custom => "custom",
                ChatToolKind::ToolSearch => "tool_search",
            };
            let namespace = match &tool.spec.namespace {
                Some(namespace) => text(namespace),
                None => Json::Null,
            };
            specs.push(
                object().entry("chatName", text(&tool.chat_name)).entry("kind", text(kind)).entry(
                    "name",
                    text(&tool.spec.name),
                ).entry("namespace", namespace),
            );
            index += 1;
        }
        assert(views(specs@) =~= Seq::new(self@.len(), |i: int| stored_spec(self@[i])));
        object().entry("chatTools", array(self.chat_tools())).entry("specs", array(specs))
    }

    /// The tools that stored ones give.
    pub fn from_persisted(value: &Json) -> (context: Self)
        ensures
            context@ == restored_tools(value@),
    {
        let tools = copy_items(value.get("chatTools"));
        let specs = copy_items(value.get("specs"));
        let ghost all = views(specs@);
        let ghost chat = views(tools@);
        let mut context = ChatToolContext::new();
        let mut index: usize = 0;
        while index < specs.len()
            invariant
                index <= specs@.len(),
                all == views(specs@),
                chat == views(tools@),
                context@ == restored_from(all, chat, index as int),
            decreases specs@.len() - index,
        {
            let spec = &specs[index];
            assert(all[index as int] == spec@);
            if let Some(chat_name) = spec.get_text("chatName") {
                let kind_name = spec.get_text("kind");
                let kind = if is_text(kind_name, "custom") {
                    ChatToolKind::Custom
                } else if is_text(kind_name, "namespace") {
                    ChatToolKind::Namespace
                } else if is_text(kind_name, "tool_search") {
                    ChatToolKind::ToolSearch
                } else {
                    ChatToolKind::Function
                };
                let name = match spec.get_text("name") {
                    Some(name) => name.to_owned(),
                    None => chat_name.to_owned(),
                };
                let chat_tool = match find_described(&tools, chat_name) {
                    Some(chat_tool) => chat_tool.copy(),
                    None => function_tool_of(object().entry("name", text(chat_name))),
                };
                let tool = ChatTool {
                    chat_name: chat_name.to_owned(),
                    spec: ChatToolSpec {
                        kind,
                        name,
                        namespace: copy_text(spec.get_text("namespace")),
                    },
                    chat_tool,
                };
                assert(tool@ == restored_tool(spec@, chat_name@, chat));
                context.add_chat_tool(tool);
            }
            index += 1;
        }
        context
    }

    /// Adds the tools of an earlier request that this one does not have.
    pub fn merge_missing_from(&mut self, previous: &Self)
        ensures
            final(self)@ == with_earlier(old(self)@, previous@, previous@.len() as int),
    {
        let mut index: usize = 0;
        while index < previous.tools.len()
            invariant
                index <= previous.tools@.len(),
                self@ == with_earlier(old(self)@, previous@, index as int),
            decreases previous.tools@.len() - index,
        {
            let chat_tool = &previous.tools[index].chat_tool;
            assert(previous@[index as int].chat_tool == chat_tool@);
            if let Some(name) = text_at(get_at(chat_tool.get("function"), "name")) {
                if let Some(known) = previous.lookup(name) {
                    let known = known.copy();
                    let tool = ChatTool {
                        chat_name: name.to_owned(),
                        spec: known.spec,
                        chat_tool: chat_tool.copy(),
                    };
                    self.add_chat_tool(tool);
                }
            }
            index += 1;
        }
    }

    /// A copy of the tools.
    pub fn copy(&self) -> (context: Self)
        ensures
            context@ == self@,
    {
        let mut tools: Vec<ChatTool> = Vec::new();
        let mut index: usize = 0;
        while index < self.tools.len()
            invariant
                index <= self.tools@.len(),
                tools@.len() == index,
                forall|i: int| 0 <= i < index ==> (#[trigger] tools@[i])@ == self@[i],
            decreases self.tools@.len() - index,
        {
            tools.push(self.tools[index].copy());
            index += 1;
        }
        let context = ChatToolContext { tools };
        assert(context@ =~= self@);
        context
    }
}

/// The choice of a function by its chat name.
pub open spec fn function_choice(chat_name: Seq<char>) -> JsonView {
    function_tool(obj().entry("name"@, JsonView::Text(chat_name)))
}

/// A text that may be missing, or the empty text.
pub open spec fn or_empty(value: Option<Seq<char>>) -> Seq<char> {
    match value {
        Some(value) => value,
        None => seq![],
    }
}

/// The choice of a tool as a chat completion takes it.
pub open spec fn chat_tool_choice(choice: JsonView, tools: Seq<ToolView>) -> JsonView {
    let kind = choice.get_text("type"@);
    let name = or_empty(choice.get_text("name"@));
    if kind == Some("function"@) {
        function_choice(chat_name_of(tools, name, choice.get_text("namespace"@)))
    } else if kind == Some("custom"@) {
        function_choice(name)
    } else if kind == Some("tool_search"@) {
        function_choice("tool_search"@)
    } else {
        choice
    }
}

/// A borrowed text that may be missing, or the empty text.
pub fn text_or_empty<'a>(value: Option<&'a str>) -> (text: &'a str)
    ensures
        text@ == or_empty(str_view(value)),
{
    match value {
        Some(value) => value,
        None => {
            proof {
                reveal_strlit("");
                assert(""@ =~= seq![]);
            }
            ""
        },
    }
}

/// The choice of a tool as a chat completion takes it.
pub fn response_tool_choice_to_chat(tool_choice: &Json, context: &ChatToolContext) -> (choice: Json)
    ensures
        choice@ == chat_tool_choice(tool_choice@, context@),
{
    let kind = tool_choice.get_text("type");
    let name = text_or_empty(tool_choice.get_text("name"));
    if is_text(kind, "function") {
        let chat_name = context.chat_name_for_response_function(
            name,
            tool_choice.get_text("namespace"),
        );
        function_tool_of(object().entry("name", text(&chat_name)))
    } else if is_text(kind, "custom") {
        function_tool_of(object().entry("name", text(name)))
    } else if is_text(kind, "tool_search") {
        function_tool_of(object().entry("name", text("tool_search")))
    } else {
        tool_choice.copy()
    }
}

/// Chat names are not blank, and no two tools have the same one.
pub open spec fn well_named(tools: Seq<ToolView>) -> bool {
    &&& forall|i: int| 0 <= i < tools.len() ==> trim((#[trigger] tools[i]).chat_name).len() > 0
    &&& forall|i: int, j: int|
        0 <= i < j < tools.len() ==> (#[trigger] tools[i]).chat_name != (
        #[trigger] tools[j]).chat_name
}

/// Every tool is described under its chat name.
pub open spec fn self_described(tools: Seq<ToolView>) -> bool {
    forall|i: int|
        0 <= i < tools.len() ==> function_name((#[trigger] tools[i]).chat_tool) == Some(
            tools[i].chat_name,
        )
}

/// Tools that can be stored and restored: well named and described under their
/// chat names.
pub open spec fn storable(tools: Seq<ToolView>) -> bool {
    well_named(tools) && self_described(tools)
}

/// Whether the name of the function that a chat tool describes is given once.
pub open spec fn clearly_named(chat_tool: JsonView) -> bool {
    keys_differ(chat_tool) && match chat_tool.get("function"@) {
        Some(function) => keys_differ(function),
        None => true,
    }
}

/// Whether the name of the function of each tool is given once.
pub open spec fn all_clear(tools: Seq<ToolView>) -> bool {
    forall|i: int| 0 <= i < tools.len() ==> clearly_named((#[trigger] tools[i]).chat_tool)
}

/// A chat name that is not found is not there.
proof fn lemma_not_named(tools: Seq<ToolView>, chat_name: Seq<char>)
    requires
        tool_named(tools, chat_name) is None,
    ensures
        forall|i: int| 0 <= i < tools.len() ==> (#[trigger] tools[i]).chat_name != chat_name,
    decreases tools.len(),
{
    if tools.len() > 0 {
        lemma_not_named(tools.drop_first(), chat_name);
        assert forall|i: int| 0 <= i < tools.len() implies (#[trigger] tools[i]).chat_name
            != chat_name by {
            if i > 0 {
                assert(tools.drop_first()[i - 1] == tools[i]);
            }
        }
    }
}

/// Adding a tool that is described under its chat name keeps tools storable.
proof fn lemma_with_tool_storable(tools: Seq<ToolView>, tool: ToolView)
    requires
        storable(tools),
        function_name(tool.chat_tool) == Some(tool.chat_name),
    ensures
        storable(with_tool(tools, tool)),
        all_clear(tools) && clearly_named(tool.chat_tool) ==> all_clear(with_tool(tools, tool)),
{
    if tool_named(tools, tool.chat_name) is None {
        lemma_not_named(tools, tool.chat_name);
    }
}

/// The name of a function is read from its chat form.
proof fn lemma_function_tool_name(function: JsonView)
    ensures
        function_name(function_tool(function)) == function.get_text("name"@),
{
    reveal_strlit("type");
    reveal_strlit("function");
    let first = Seq::<(Seq<char>, JsonView)>::empty().push(
        ("type"@, JsonView::Text("function"@)),
    );
    lemma_entry_get(Seq::empty(), "type"@, JsonView::Text("function"@), "function"@);
    lemma_entry_get(first, "function"@, function, "function"@);
    assert("type"@.len() != "function"@.len());
}

/// The chat form of a function gives its name once where the function does.
proof fn lemma_function_tool_clear(function: JsonView)
    requires
        keys_differ(function),
    ensures
        clearly_named(function_tool(function)),
{
    reveal_strlit("type");
    reveal_strlit("function");
    assert("type"@.len() != "function"@.len());
    let first = Seq::<(Seq<char>, JsonView)>::empty().push(
        ("type"@, JsonView::Text("function"@)),
    );
    lemma_entry_get(Seq::empty(), "type"@, JsonView::Text("function"@), "function"@);
    lemma_entry_get(first, "function"@, function, "function"@);
    let fields = first.push(("function"@, function));
    assert(fields.len() == 2 && fields[0].0 == "type"@ && fields[1].0 == "function"@);
}

/// The fields of a function that is put together have different keys.
proof fn lemma_made_function_clear(function: JsonView)
    requires
        function is Object,
        (function->Object_0).len() == 3,
        (function->Object_0)[0].0 == "name"@,
        (function->Object_0)[1].0 == "description"@,
        (function->Object_0)[2].0 == "parameters"@,
    ensures
        keys_differ(function),
{
    reveal_strlit("name");
    reveal_strlit("description");
    reveal_strlit("parameters");
    assert("name"@.len() == 4 && "description"@.len() == 11 && "parameters"@.len() == 10);
    let fields = function->Object_0;
    assert forall|i: int, j: int| 0 <= i < j < fields.len() implies (#[trigger] fields[i]).0 != (
    #[trigger] fields[j]).0 by {
        assert(i == 0 || i == 1);
        assert(j == 1 || j == 2);
    }
}

/// Normalizing the parameters of a function keeps its name.
proof fn lemma_parameters_keep_name(function: JsonView)
    requires
        function is Object,
    ensures
        with_object_parameters(function).get_text("name"@) == function.get_text("name"@),
        keys_differ(function) ==> keys_differ(with_object_parameters(function)),
{
    if keys_differ(function) {
        law_set_keeps_keys_apart(
            function->Object_0,
            "parameters"@,
            object_parameters(function.get("parameters"@)),
        );
    }
    reveal_strlit("name");
    reveal_strlit("parameters");
    assert("name"@.len() != "parameters"@.len());
    law_set_keeps_others(
        function->Object_0,
        "parameters"@,
        object_parameters(function.get("parameters"@)),
        "name"@,
    );
}

proof fn lemma_with_function_storable(
    tools: Seq<ToolView>,
    tool: JsonView,
    namespace: Option<Seq<char>>,
)
    requires
        storable(tools),
    ensures
        storable(with_function(tools, tool, namespace)),
        all_clear(tools) && keys_apart(tool) ==> all_clear(with_function(tools, tool, namespace)),
{
    if tool_name(tool) is Some {
        let name = tool_name(tool)->0;
        let chat_name = match namespace {
            Some(namespace) => flat_name(namespace, name),
            None => name,
        };
        if chat_function_tool(tool, chat_name) is Some {
            let chat_tool = chat_function_tool(tool, chat_name)->0;
            assert(function_name(chat_tool) == Some(chat_name) && (keys_apart(tool)
                ==> clearly_named(chat_tool))) by {
                match tool.get("function"@) {
                    Some(JsonView::Object(fields)) => {
                        let named = JsonView::Object(fields).with(
                            "name"@,
                            JsonView::Text(chat_name),
                        );
                        law_set_then_get(fields, "name"@, JsonView::Text(chat_name));
                        lemma_parameters_keep_name(named);
                        lemma_function_tool_name(with_object_parameters(named));
                        if keys_apart(tool) {
                            lemma_field_keys_apart(tool, "function"@);
                            law_set_keeps_keys_apart(fields, "name"@, JsonView::Text(chat_name));
                            lemma_function_tool_clear(with_object_parameters(named));
                        }
                    },
                    _ => {
                        let function = flat_function(tool, chat_name);
                        lemma_flat_function_name(tool, chat_name);
                        lemma_parameters_keep_name(function);
                        lemma_function_tool_name(with_object_parameters(function));
                        lemma_function_tool_clear(with_object_parameters(function));
                    },
                }
            }
            lemma_with_tool_storable(
                tools,
                ToolView {
                    chat_name,
                    kind: if namespace is Some {
                        ChatToolKind::Namespace
                    } else {
                        ChatToolKind::Function
                    },
                    name,
                    namespace,
                    chat_tool,
                },
            );
        }
    }
}

proof fn lemma_flat_function_name(tool: JsonView, chat_name: Seq<char>)
    ensures
        flat_function(tool, chat_name) is Object,
        flat_function(tool, chat_name).get_text("name"@) == Some(chat_name),
        keys_differ(flat_function(tool, chat_name)),
{
    let empty = Seq::<(Seq<char>, JsonView)>::empty();
    let name = JsonView::Text(chat_name);
    let description = or_null(tool.get("description"@));
    let parameters = match either(tool.get("parameters"@), tool.get("input_schema"@)) {
        Some(parameters) => parameters,
        None => no_parameters(),
    };
    let one = empty.push(("name"@, name));
    let two = one.push(("description"@, description));
    lemma_entry_get(empty, "name"@, name, "name"@);
    lemma_entry_get(one, "description"@, description, "name"@);
    lemma_entry_get(two, "parameters"@, parameters, "name"@);
    let three = two.push(("parameters"@, parameters));
    assert(field_of(three, "name"@) == Some(name));
    lemma_made_function_clear(JsonView::Object(three));
    if tool.get("strict"@) is Some {
        reveal_strlit("strict");
        reveal_strlit("name");
        assert("strict"@.len() != "name"@.len());
        law_set_keeps_others(three, "strict"@, tool.get("strict"@)->0, "name"@);
        law_set_keeps_keys_apart(three, "strict"@, tool.get("strict"@)->0);
    }
}

proof fn lemma_with_custom_storable(tools: Seq<ToolView>, tool: JsonView)
    requires
        storable(tools),
    ensures
        storable(with_custom(tools, tool)),
        all_clear(tools) ==> all_clear(with_custom(tools, tool)),
{
    if tool_name(tool) is Some {
        let name = tool_name(tool)->0;
        let chat_tool = chat_custom_tool(tool, name);
        let function = chat_tool.get("function"@)->0;
        assert(function_name(chat_tool) == Some(name) && clearly_named(chat_tool)) by {
            let inner = custom_function(tool, name);
            lemma_made_function_clear(inner);
            lemma_function_tool_clear(inner);
            lemma_function_tool_name(inner);
            lemma_first_field_name(inner, JsonView::Text(name));
        }
        lemma_with_tool_storable(
            tools,
            ToolView {
                chat_name: name,
                kind: ChatToolKind::Custom,
                name,
                namespace: None,
                chat_tool,
            },
        );
    }
}

/// A field in front is the one that is found.
proof fn lemma_first_field_name(function: JsonView, name: JsonView)
    requires
        function is Object,
        (function->Object_0).len() > 0,
        (function->Object_0)[0] == ("name"@, name),
    ensures
        function.get("name"@) == Some(name),
{
}

proof fn lemma_with_search_storable(tools: Seq<ToolView>)
    requires
        storable(tools),
    ensures
        storable(with_tool_search(tools)),
        all_clear(tools) ==> all_clear(with_tool_search(tools)),
{
    let inner = tool_search_function();
    lemma_made_function_clear(inner);
    lemma_function_tool_clear(inner);
    lemma_function_tool_name(inner);
    lemma_first_field_name(inner, JsonView::Text("tool_search"@));
    lemma_with_tool_storable(
        tools,
        ToolView {
            chat_name: "tool_search"@,
            kind: ChatToolKind::ToolSearch,
            name: "tool_search"@,
            namespace: None,
            chat_tool: chat_tool_search(),
        },
    );
}

proof fn lemma_with_children_storable(
    tools: Seq<ToolView>,
    namespace: Seq<char>,
    children: Seq<JsonView>,
    count: int,
)
    requires
        storable(tools),
    ensures
        storable(with_children(tools, namespace, children, count)),
        all_clear(tools) && keys_apart(JsonView::Array(children)) ==> all_clear(
            with_children(tools, namespace, children, count),
        ),
    decreases count,
{
    if 0 < count <= children.len() {
        if keys_apart(JsonView::Array(children)) {
            lemma_item_keys_apart(children, count - 1);
        }
        lemma_with_children_storable(tools, namespace, children, count - 1);
        lemma_with_function_storable(
            with_children(tools, namespace, children, count - 1),
            children[count - 1],
            Some(namespace),
        );
    }
}

proof fn lemma_with_response_tool_storable(tools: Seq<ToolView>, tool: JsonView)
    requires
        storable(tools),
    ensures
        storable(with_response_tool(tools, tool)),
        all_clear(tools) && keys_apart(tool) ==> all_clear(with_response_tool(tools, tool)),
{
    match tool {
        JsonView::Text(name) => {
            lemma_with_custom_storable(tools, bare_custom_tool(name));
        },
        _ => {
            lemma_with_function_storable(tools, tool, None);
            lemma_with_custom_storable(tools, tool);
            lemma_with_search_storable(tools);
            if keys_apart(tool) {
                if tool.get("tools"@) is Some {
                    lemma_field_keys_apart(tool, "tools"@);
                }
                if tool.get("children"@) is Some {
                    lemma_field_keys_apart(tool, "children"@);
                }
            }
            match (tool.get_text("name"@), either(tool.get("tools"@), tool.get("children"@))) {
                (Some(namespace), Some(JsonView::Array(children))) => {
                    lemma_with_children_storable(
                        tools,
                        namespace,
                        children,
                        children.len() as int,
                    );
                },
                _ => {},
            }
        },
    }
}

proof fn lemma_with_response_tools_storable(
    tools: Seq<ToolView>,
    list: Seq<JsonView>,
    count: int,
)
    requires
        storable(tools),
    ensures
        storable(with_response_tools(tools, list, count)),
        all_clear(tools) && keys_apart(JsonView::Array(list)) ==> all_clear(
            with_response_tools(tools, list, count),
        ),
    decreases count,
{
    if 0 < count <= list.len() {
        if keys_apart(JsonView::Array(list)) {
            lemma_item_keys_apart(list, count - 1);
        }
        lemma_with_response_tools_storable(tools, list, count - 1);
        lemma_with_response_tool_storable(
            with_response_tools(tools, list, count - 1),
            list[count - 1],
        );
    }
}

proof fn lemma_with_tool_list_storable(tools: Seq<ToolView>, list: Option<JsonView>)
    requires
        storable(tools),
    ensures
        storable(with_tool_list(tools, list)),
        all_clear(tools) && (list matches Some(list) ==> keys_apart(list)) ==> all_clear(
            with_tool_list(tools, list),
        ),
{
    match list {
        Some(JsonView::Array(items)) => {
            lemma_with_response_tools_storable(tools, items, items.len() as int);
        },
        _ => {},
    }
}

proof fn lemma_with_additional_storable(tools: Seq<ToolView>, value: JsonView)
    requires
        storable(tools),
    ensures
        storable(with_additional(tools, value)),
        all_clear(tools) && keys_apart(value) ==> all_clear(with_additional(tools, value)),
    decreases value, 1int,
{
    match value {
        JsonView::Object(_) => {
            let own = with_tool_list(tools, value.get("additional_tools"@));
            let first = with_additional_in(own, value, "input"@);
            let second = with_additional_in(first, value, "override"@);
            if keys_apart(value) && value.get("additional_tools"@) is Some {
                lemma_field_keys_apart(value, "additional_tools"@);
            }
            lemma_with_tool_list_storable(tools, value.get("additional_tools"@));
            lemma_with_additional_in_storable(own, value, "input"@);
            lemma_with_additional_in_storable(first, value, "override"@);
            lemma_with_additional_in_storable(second, value, "overrides"@);
        },
        JsonView::Array(items) => {
            lemma_with_additional_items_storable(tools, items, items.len() as int);
        },
        _ => {},
    }
}

proof fn lemma_with_additional_in_storable(
    tools: Seq<ToolView>,
    value: JsonView,
    key: Seq<char>,
)
    requires
        storable(tools),
    ensures
        storable(with_additional_in(tools, value, key)),
        all_clear(tools) && keys_apart(value) ==> all_clear(with_additional_in(tools, value, key)),
    decreases value, 0int,
{
    if value.get(key) is Some {
        lemma_field_is_smaller(value, key);
        if keys_apart(value) {
            lemma_field_keys_apart(value, key);
        }
        lemma_with_additional_storable(tools, value.get(key)->0);
    }
}

proof fn lemma_with_additional_items_storable(
    tools: Seq<ToolView>,
    items: Seq<JsonView>,
    count: int,
)
    requires
        storable(tools),
    ensures
        storable(with_additional_items(tools, items, count)),
        all_clear(tools) && keys_apart(JsonView::Array(items)) ==> all_clear(
            with_additional_items(tools, items, count),
        ),
    decreases items, count,
{
    if 0 < count <= items.len() {
        if keys_apart(JsonView::Array(items)) {
            lemma_item_keys_apart(items, count - 1);
        }
        lemma_with_additional_items_storable(tools, items, count - 1);
        lemma_with_additional_storable(
            with_additional_items(tools, items, count - 1),
            items[count - 1],
        );
    }
}

proof fn lemma_with_found_storable(tools: Seq<ToolView>, value: JsonView)
    requires
        storable(tools),
    ensures
        storable(with_found(tools, value)),
        all_clear(tools) && keys_apart(value) ==> all_clear(with_found(tools, value)),
    decreases value, 0int,
{
    match value {
        JsonView::Array(items) => {
            lemma_with_found_items_storable(tools, items, items.len() as int);
        },
        JsonView::Object(fields) => {
            if keys_apart(value) && value.get("tools"@) is Some {
                lemma_field_keys_apart(value, "tools"@);
            }
            lemma_with_tool_list_storable(tools, value.get("tools"@));
            let own = if value.get_text("type"@) == Some("tool_search_output"@) {
                with_tool_list(tools, value.get("tools"@))
            } else {
                tools
            };
            lemma_with_found_fields_storable(own, fields, fields.len() as int);
        },
        _ => {},
    }
}

proof fn lemma_with_found_items_storable(tools: Seq<ToolView>, items: Seq<JsonView>, count: int)
    requires
        storable(tools),
    ensures
        storable(with_found_items(tools, items, count)),
        all_clear(tools) && keys_apart(JsonView::Array(items)) ==> all_clear(
            with_found_items(tools, items, count),
        ),
    decreases items, count,
{
    if 0 < count <= items.len() {
        if keys_apart(JsonView::Array(items)) {
            lemma_item_keys_apart(items, count - 1);
        }
        lemma_with_found_items_storable(tools, items, count - 1);
        lemma_with_found_storable(with_found_items(tools, items, count - 1), items[count - 1]);
    }
}

proof fn lemma_with_found_fields_storable(
    tools: Seq<ToolView>,
    fields: Seq<(Seq<char>, JsonView)>,
    count: int,
)
    requires
        storable(tools),
    ensures
        storable(with_found_fields(tools, fields, count)),
        all_clear(tools) && keys_apart(JsonView::Object(fields)) ==> all_clear(
            with_found_fields(tools, fields, count),
        ),
    decreases fields, count,
{
    if 0 < count <= fields.len() {
        lemma_with_found_fields_storable(tools, fields, count - 1);
        lemma_with_found_storable(
            with_found_fields(tools, fields, count - 1),
            fields[count - 1].1,
        );
    }
}

/// No two tools of a request get the same chat name, no chat name is blank, and
/// every tool is described under its chat name, which its description gives once
/// where the keys of the request are apart.
pub proof fn law_request_tools_are_storable(value: JsonView)
    ensures
        storable(request_tools(value)),
        keys_apart(value) ==> all_clear(request_tools(value)),
{
    if keys_apart(value) {
        if value.get("tools"@) is Some {
            lemma_field_keys_apart(value, "tools"@);
        }
        if value.get("input"@) is Some {
            lemma_field_keys_apart(value, "input"@);
        }
    }
    let own = with_tool_list(seq![], value.get("tools"@));
    lemma_with_tool_list_storable(seq![], value.get("tools"@));
    lemma_with_additional_storable(own, value);
    if value.get("input"@) is Some {
        lemma_with_found_storable(with_additional(own, value), value.get("input"@)->0);
    }
}

/// Tools to which those of an earlier conversation are added stay storable.
pub proof fn law_earlier_tools_are_storable(
    tools: Seq<ToolView>,
    earlier: Seq<ToolView>,
    count: int,
)
    requires
        storable(tools),
    ensures
        storable(with_earlier(tools, earlier, count)),
        all_clear(tools) && all_clear(earlier) ==> all_clear(with_earlier(tools, earlier, count)),
    decreases count,
{
    if 0 < count <= earlier.len() {
        law_earlier_tools_are_storable(tools, earlier, count - 1);
        let before = with_earlier(tools, earlier, count - 1);
        let chat_tool = earlier[count - 1].chat_tool;
        if function_name(chat_tool) is Some {
            let name = function_name(chat_tool)->0;
            if tool_named(earlier, name) is Some {
                lemma_with_tool_storable(
                    before,
                    ToolView { chat_name: name, chat_tool, ..tool_named(earlier, name)->0 },
                );
            }
        }
    }
}

/// A chat name that is found is that of one of the tools.
proof fn lemma_named_index(tools: Seq<ToolView>, chat_name: Seq<char>) -> (index: int)
    requires
        tool_named(tools, chat_name) is Some,
    ensures
        0 <= index < tools.len(),
        tools[index].chat_name == chat_name,
        tool_named(tools, chat_name) == Some(tools[index]),
    decreases tools.len(),
{
    if tools[0].chat_name == chat_name {
        0
    } else {
        let index = lemma_named_index(tools.drop_first(), chat_name);
        assert(tools.drop_first()[index] == tools[index + 1]);
        index + 1
    }
}

/// The fields of what is stored of a tool.
proof fn lemma_stored_spec(tool: ToolView)
    ensures
        stored_spec(tool).get_text("chatName"@) == Some(tool.chat_name),
        stored_kind(stored_spec(tool).get_text("kind"@)) == tool.kind,
        stored_spec(tool).get_text("name"@) == Some(tool.name),
        stored_spec(tool).get_text("namespace"@) == tool.namespace,
{
    reveal_strlit("chatName");
    reveal_strlit("kind");
    reveal_strlit("name");
    reveal_strlit("namespace");
    reveal_strlit("function");
    reveal_strlit("custom");
    reveal_strlit("tool_search");
    assert("chatName"@[0] == 'c' && "kind"@[0] == 'k' && "name"@[0] == 'n' && "namespace"@[0]
        == 'n');
    assert("name"@.len() != "namespace"@.len());
    assert("function"@[0] == 'f' && "custom"@[0] == 'c' && "tool_search"@[0] == 't');
    let empty = Seq::<(Seq<char>, JsonView)>::empty();
    let a = JsonView::Text(tool.chat_name);
    let b = JsonView::Text(kind_text(tool.kind));
    let c = JsonView::Text(tool.name);
    let d = text_view(tool.namespace);
    let one = empty.push(("chatName"@, a));
    let two = one.push(("kind"@, b));
    let three = two.push(("name"@, c));
    lemma_entry_get(empty, "chatName"@, a, "chatName"@);
    lemma_entry_get(one, "kind"@, b, "chatName"@);
    lemma_entry_get(two, "name"@, c, "chatName"@);
    lemma_entry_get(three, "namespace"@, d, "chatName"@);
    lemma_entry_get(empty, "chatName"@, a, "kind"@);
    lemma_entry_get(one, "kind"@, b, "kind"@);
    lemma_entry_get(two, "name"@, c, "kind"@);
    lemma_entry_get(three, "namespace"@, d, "kind"@);
    lemma_entry_get(empty, "chatName"@, a, "name"@);
    lemma_entry_get(one, "kind"@, b, "name"@);
    lemma_entry_get(two, "name"@, c, "name"@);
    lemma_entry_get(three, "namespace"@, d, "name"@);
    lemma_entry_get(empty, "chatName"@, a, "namespace"@);
    lemma_entry_get(one, "kind"@, b, "namespace"@);
    lemma_entry_get(two, "name"@, c, "namespace"@);
    lemma_entry_get(three, "namespace"@, d, "namespace"@);
}

/// The chat form of a tool is found by its chat name.
proof fn lemma_described(tools: Seq<ToolView>, chat_tools: Seq<JsonView>, index: int)
    requires
        storable(tools),
        0 <= index < tools.len(),
        chat_tools == Seq::new(tools.len(), |i: int| tools[i].chat_tool),
    ensures
        described(chat_tools, tools[index].chat_name) == Some(tools[index].chat_tool),
    decreases tools.len(),
{
    assert(function_name(chat_tools[0]) == Some(tools[0].chat_name));
    if index > 0 {
        let rest = tools.drop_first();
        assert forall|i: int| 0 <= i < rest.len() implies #[trigger] rest[i] == tools[i + 1] by {}
        assert(chat_tools.drop_first() =~= Seq::new(rest.len(), |i: int| rest[i].chat_tool));
        lemma_described(rest, chat_tools.drop_first(), index - 1);
    }
}

proof fn lemma_restored(tools: Seq<ToolView>, specs: Seq<JsonView>, chat: Seq<JsonView>, count: int)
    requires
        storable(tools),
        0 <= count <= tools.len(),
        specs == Seq::new(tools.len(), |i: int| stored_spec(tools[i])),
        chat == Seq::new(tools.len(), |i: int| tools[i].chat_tool),
    ensures
        restored_from(specs, chat, count) == tools.take(count),
    decreases count,
{
    if count > 0 {
        lemma_restored(tools, specs, chat, count - 1);
        let tool = tools[count - 1];
        let before = tools.take(count - 1);
        lemma_stored_spec(tool);
        lemma_described(tools, chat, count - 1);
        assert(restored_tool(specs[count - 1], tool.chat_name, chat) == tool);
        if tool_named(before, tool.chat_name) is Some {
            let index = lemma_named_index(before, tool.chat_name);
            assert(tools[index].chat_name == tools[count - 1].chat_name);
        }
        assert(before.push(tool) =~= tools.take(count));
    } else {
        assert(tools.take(0) =~= seq![]);
    }
}

/// Tools that were stored are restored as they were.
pub proof fn law_stored_tools_are_restored(tools: Seq<ToolView>)
    requires
        storable(tools),
    ensures
        restored_tools(stored_tools(tools)) == tools,
{
    reveal_strlit("chatTools");
    reveal_strlit("specs");
    assert("chatTools"@.len() != "specs"@.len());
    let specs = Seq::new(tools.len(), |i: int| stored_spec(tools[i]));
    let chat = Seq::new(tools.len(), |i: int| tools[i].chat_tool);
    let empty = Seq::<(Seq<char>, JsonView)>::empty();
    let one = empty.push(("chatTools"@, JsonView::Array(chat)));
    lemma_entry_get(empty, "chatTools"@, JsonView::Array(chat), "chatTools"@);
    lemma_entry_get(one, "specs"@, JsonView::Array(specs), "chatTools"@);
    lemma_entry_get(empty, "chatTools"@, JsonView::Array(chat), "specs"@);
    lemma_entry_get(one, "specs"@, JsonView::Array(specs), "specs"@);
    assert(stored_tools(tools).get("chatTools"@) == Some(JsonView::Array(chat)));
    assert(stored_tools(tools).get("specs"@) == Some(JsonView::Array(specs)));
    lemma_restored(tools, specs, chat, tools.len() as int);
    assert(tools.take(tools.len() as int) =~= tools);
}

/// Tools with the fields of their chat forms in order.
pub open spec fn ordered_tools(tools: Seq<ToolView>) -> Seq<ToolView> {
    Seq::new(
        tools.len(),
        |i: int| ToolView { chat_tool: ordered(tools[i].chat_tool), ..tools[i] },
    )
}

proof fn lemma_ordered_spec(tool: ToolView)
    ensures
        ordered(stored_spec(tool)) == stored_spec(tool),
{
    reveal_strlit("chatName");
    reveal_strlit("kind");
    reveal_strlit("name");
    reveal_strlit("namespace");
    let fields = stored_spec(tool)->Object_0;
    assert(ordered_fields(fields) =~= fields);
    assert("chatName"@[0] == 'c' && "kind"@[0] == 'k' && "name"@[0] == 'n');
    assert("namespace"@[0] == 'n');
    assert(key_less("name"@, "namespace"@)) by {
        reveal_with_fuel(key_less, 6);
        assert("name"@[1] == "namespace"@[1]);
        assert("name"@[2] == "namespace"@[2]);
        assert("name"@[3] == "namespace"@[3]);
    }
    assert(key_less("chatName"@, "kind"@) && key_less("chatName"@, "name"@) && key_less(
        "chatName"@,
        "namespace"@,
    ));
    assert(key_less("kind"@, "name"@) && key_less("kind"@, "namespace"@));
    assert forall|i: int, j: int| 0 <= i < j < fields.len() implies key_less(
        (#[trigger] fields[i]).0,
        (#[trigger] fields[j]).0,
    ) by {
        assert(fields.len() == 4);
        assert(fields[0].0 == "chatName"@ && fields[1].0 == "kind"@);
        assert(fields[2].0 == "name"@ && fields[3].0 == "namespace"@);
    }
    lemma_ascending_fields(fields);
}

proof fn lemma_ordered_stored_tools(tools: Seq<ToolView>)
    ensures
        ordered(stored_tools(tools)) == stored_tools(ordered_tools(tools)),
{
    reveal_strlit("chatTools");
    reveal_strlit("specs");
    let fields = stored_tools(tools)->Object_0;
    let others = ordered_tools(tools);
    let wanted = stored_tools(others)->Object_0;
    let chat = Seq::new(tools.len(), |i: int| tools[i].chat_tool);
    let specs = Seq::new(tools.len(), |i: int| stored_spec(tools[i]));
    let other_chat = Seq::new(others.len(), |i: int| others[i].chat_tool);
    let other_specs = Seq::new(others.len(), |i: int| stored_spec(others[i]));
    assert forall|i: int| 0 <= i < tools.len() implies ordered(#[trigger] specs[i])
        == other_specs[i] by {
        lemma_ordered_spec(tools[i]);
    }
    assert(ordered(JsonView::Array(chat))->Array_0 =~= other_chat);
    assert(ordered(JsonView::Array(specs))->Array_0 =~= other_specs);
    assert(fields[0] == ("chatTools"@, JsonView::Array(chat)));
    assert(fields[1] == ("specs"@, JsonView::Array(specs)));
    assert(ordered_fields(fields) =~= wanted);
    assert("chatTools"@[0] == 'c' && "specs"@[0] == 's');
    assert(key_less("chatTools"@, "specs"@));
    assert forall|i: int, j: int| 0 <= i < j < wanted.len() implies key_less(
        (#[trigger] wanted[i]).0,
        (#[trigger] wanted[j]).0,
    ) by {
        assert(wanted.len() == 2);
    }
    lemma_ascending_fields(wanted);
}

/// Tools that were stored as text are restored as they were, but for the order
/// of the fields of their chat forms.
pub proof fn law_written_tools_are_restored(tools: Seq<ToolView>)
    requires
        storable(tools),
        all_clear(tools),
    ensures
        restored_tools(ordered(stored_tools(tools))) == ordered_tools(tools),
        storable(ordered_tools(tools)),
        all_clear(ordered_tools(tools)),
{
    let others = ordered_tools(tools);
    assert forall|i: int| 0 <= i < others.len() implies function_name(
        (#[trigger] others[i]).chat_tool,
    ) == Some(others[i].chat_name) by {
        let chat_tool = tools[i].chat_tool;
        assert(clearly_named(chat_tool));
        assert(function_name(chat_tool) == Some(tools[i].chat_name));
        law_order_keeps_fields(chat_tool, "function"@);
        law_order_keeps_fields(chat_tool.get("function"@)->Some_0, "name"@);
    }
    assert forall|i: int| 0 <= i < others.len() implies clearly_named(
        (#[trigger] others[i]).chat_tool,
    ) by {
        let chat_tool = others[i].chat_tool;
        law_order_takes_keys_apart(tools[i].chat_tool);
        if chat_tool.get("function"@) is Some {
            lemma_field_keys_apart(chat_tool, "function"@);
        }
    }
    assert forall|i: int, j: int| 0 <= i < j < others.len() implies (
    #[trigger] others[i]).chat_name != (#[trigger] others[j]).chat_name by {
        assert(tools[i].chat_name != tools[j].chat_name);
    }
    lemma_ordered_stored_tools(tools);
    law_stored_tools_are_restored(others);
}

/// A tool that the model has is found by its name whatever tools are added.
proof fn lemma_still_named(tools: Seq<ToolView>, more: Seq<ToolView>, chat_name: Seq<char>)
    requires
        tool_named(tools, chat_name) is Some,
        tools.len() <= more.len(),
        more.take(tools.len() as int) == tools,
    ensures
        tool_named(more, chat_name) == tool_named(tools, chat_name),
    decreases tools.len(),
{
    assert(more[0] == more.take(tools.len() as int)[0]);
    if tools[0].chat_name != chat_name {
        let rest = tools.drop_first();
        assert(more.drop_first().take(rest.len() as int) =~= rest) by {
            assert(more.drop_first().take(rest.len() as int) =~= more.take(
                tools.len() as int,
            ).drop_first());
        }
        lemma_still_named(rest, more.drop_first(), chat_name);
    }
}

/// A tool that is added is found by its chat name, and one whose name is taken
/// changes nothing.
proof fn lemma_added_is_named(tools: Seq<ToolView>, tool: ToolView)
    requires
        trim(tool.chat_name).len() > 0,
    ensures
        tool_named(tools, tool.chat_name) is None ==> tool_named(
            with_tool(tools, tool),
            tool.chat_name,
        ) == Some(tool),
        tool_named(tools, tool.chat_name) is Some ==> with_tool(tools, tool) == tools,
{
    if tool_named(tools, tool.chat_name) is None {
        lemma_last_is_named(tools, tool);
    }
}

proof fn lemma_last_is_named(tools: Seq<ToolView>, tool: ToolView)
    requires
        tool_named(tools, tool.chat_name) is None,
    ensures
        tool_named(tools.push(tool), tool.chat_name) == Some(tool),
    decreases tools.len(),
{
    let more = tools.push(tool);
    if tools.len() > 0 {
        assert(more.drop_first() =~= tools.drop_first().push(tool));
        lemma_last_is_named(tools.drop_first(), tool);
    }
}

/// A function that a request offers is offered to the model under its name, with
/// its description and its parameters, and answers to that name.
pub proof fn law_functions_are_offered_to_the_model(
    tools: Seq<ToolView>,
    tool: JsonView,
    name: Seq<char>,
    parameters: JsonView,
)
    requires
        tool is Object,
        tool.get_text("type"@) == Some("function"@),
        tool.get("function"@) is None,
        tool.get("name"@) == Some(JsonView::Text(name)),
        trim(name) == name,
        name.len() > 0,
        tool.get("parameters"@) == Some(parameters),
        parameters.get_text("type"@) == Some("object"@),
        tool_named(tools, name) is None,
    ensures
        tool_named(with_response_tool(tools, tool), name) matches Some(offered) && {
            &&& offered.kind is Function
            &&& offered.name == name
            &&& offered.namespace is None
            &&& offered.chat_tool.get_text("type"@) == Some("function"@)
            &&& offered.chat_tool.get("function"@) matches Some(function) && function.get_text(
                "name"@,
            ) == Some(name) && function.get("parameters"@) == Some(parameters) && (tool.get(
                "description"@,
            ) is Some ==> function.get("description"@) == tool.get("description"@)) && (tool.get(
                "strict"@,
            ) is Some ==> function.get("strict"@) == tool.get("strict"@))
        },
{
    broadcast use {crate::json::lemma_entry_field, crate::json::lemma_with_field};

    reveal_strlit("type");
    reveal_strlit("function");
    reveal_strlit("name");
    reveal_strlit("description");
    reveal_strlit("parameters");
    reveal_strlit("strict");
    reveal_strlit("custom");
    reveal_strlit("tool_search");
    reveal_strlit("namespace");
    assert("type"@.len() == 4);
    assert("function"@.len() == 8);
    assert("name"@.len() == 4);
    assert("description"@.len() == 11);
    assert("parameters"@.len() == 10);
    assert("strict"@.len() == 6);
    assert("custom"@.len() == 6);
    assert("tool_search"@.len() == 11);
    assert("namespace"@.len() == 9);
    assert("type"@[0] != "name"@[0]);
    assert("description"@[0] != "tool_search"@[0]);
    assert("strict"@[0] != "custom"@[0]);
    let flat = flat_function(tool, name);
    let made = with_object_parameters(flat);
    let base = obj().entry("name"@, JsonView::Text(name)).entry(
        "description"@,
        or_null(tool.get("description"@)),
    ).entry("parameters"@, parameters);
    assert(base.get("name"@) == Some(JsonView::Text(name)));
    assert(base.get("description"@) == Some(or_null(tool.get("description"@))));
    assert(base.get("parameters"@) == Some(parameters));
    assert(flat.get("parameters"@) == Some(parameters));
    assert(flat.get("name"@) == Some(JsonView::Text(name)));
    assert(made.get("parameters"@) == Some(parameters));
    assert(made.get("name"@) == Some(JsonView::Text(name)));
    assert(made.get("description"@) == Some(or_null(tool.get("description"@))));
    let chat_tool = function_tool(made);
    assert(chat_tool.get("type"@) == Some(JsonView::Text("function"@)));
    assert(chat_tool.get("function"@) == Some(made));
    assert(tool_name(tool) == Some(name));
    lemma_added_is_named(
        tools,
        ToolView {
            chat_name: name,
            kind: ChatToolKind::Function,
            name,
            namespace: None,
            chat_tool,
        },
    );
}

/// A custom tool is offered to the model as a function of one text, under its
/// name.
pub proof fn law_custom_tools_are_offered_as_functions(
    tools: Seq<ToolView>,
    tool: JsonView,
    name: Seq<char>,
)
    requires
        tool is Object,
        tool.get_text("type"@) == Some("custom"@),
        tool.get("function"@) is None,
        tool.get("name"@) == Some(JsonView::Text(name)),
        trim(name) == name,
        name.len() > 0,
        tool_named(tools, name) is None,
    ensures
        tool_named(with_response_tool(tools, tool), name) matches Some(offered) && {
            &&& offered.kind is Custom
            &&& offered.name == name
            &&& offered.chat_tool.get("function"@) matches Some(function) && function.get_text(
                "name"@,
            ) == Some(name) && (function.get("parameters"@) matches Some(parameters)
                && parameters.get("required"@) == Some(
                JsonView::Array(seq![JsonView::Text("input"@)]),
            ))
        },
{
    broadcast use crate::json::lemma_entry_field;

    reveal_strlit("type");
    reveal_strlit("function");
    reveal_strlit("name");
    reveal_strlit("description");
    reveal_strlit("parameters");
    reveal_strlit("custom");
    reveal_strlit("properties");
    reveal_strlit("required");
    assert("type"@.len() == 4);
    assert("function"@.len() == 8);
    assert("name"@.len() == 4);
    assert("description"@.len() == 11);
    assert("parameters"@.len() == 10);
    assert("custom"@.len() == 6);
    assert("properties"@.len() == 10);
    assert("required"@.len() == 8);
    assert("type"@[0] != "name"@[0]);
    assert("function"@[0] != "required"@[0]);
    assert("parameters"@[1] != "properties"@[1]);
    let inner = custom_function(tool, name);
    assert(inner.get("name"@) == Some(JsonView::Text(name)));
    assert(inner.get("parameters"@) == Some(raw_parameters()));
    assert(raw_parameters().get("required"@) == Some(
        JsonView::Array(seq![JsonView::Text("input"@)]),
    ));
    let chat_tool = chat_custom_tool(tool, name);
    assert(chat_tool.get("function"@) == Some(inner));
    assert(tool_name(tool) == Some(name));
    lemma_added_is_named(
        tools,
        ToolView {
            chat_name: name,
            kind: ChatToolKind::Custom,
            name,
            namespace: None,
            chat_tool,
        },
    );
}

/// A function of a namespace is offered to the model under one name for both, and
/// is known by that name as the function of its namespace.
pub proof fn law_namespaced_functions_are_offered(
    tools: Seq<ToolView>,
    tool: JsonView,
    namespace: Seq<char>,
    name: Seq<char>,
)
    requires
        tool is Object,
        tool.get_text("type"@) == Some("function"@),
        tool.get("function"@) is None,
        tool.get("name"@) == Some(JsonView::Text(name)),
        trim(name) == name,
        name.len() > 0,
        tool_named(tools, flat_name(namespace, name)) is None,
        trim(flat_name(namespace, name)).len() > 0,
    ensures
        tool_named(
            with_function(tools, tool, Some(namespace)),
            flat_name(namespace, name),
        ) matches Some(offered) && {
            &&& offered.kind is Namespace
            &&& offered.name == name
            &&& offered.namespace == Some(namespace)
        },
{
    assert(tool_name(tool) == Some(name));
    let chat_name = flat_name(namespace, name);
    let chat_tool = chat_function_tool(tool, chat_name)->0;
    lemma_added_is_named(
        tools,
        ToolView {
            chat_name,
            kind: ChatToolKind::Namespace,
            name,
            namespace: Some(namespace),
            chat_tool,
        },
    );
}

/// Of two tools of one name the first stands: a later one changes nothing.
pub proof fn law_first_tools_of_a_name_stand(tools: Seq<ToolView>, tool: ToolView)
    requires
        tool_named(tools, tool.chat_name) is Some,
    ensures
        with_tool(tools, tool) == tools,
{
}

/// The choice of a tool names the tool as the model knows it; a choice that names
/// none stays as it is.
pub proof fn law_choices_name_tools_as_the_model_does(
    choice: JsonView,
    tools: Seq<ToolView>,
    name: Seq<char>,
)
    ensures
        choice.get_text("type"@) == Some("function"@) && choice.get_text("name"@) == Some(name)
            && choice.get("namespace"@) is None ==> ({
            let chosen = chat_tool_choice(choice, tools);
            &&& chosen.get_text("type"@) == Some("function"@)
            &&& chosen.get("function"@) matches Some(function) && function.get_text("name"@) == Some(
                name,
            )
        }),
        choice is Text ==> chat_tool_choice(choice, tools) == choice,
{
    broadcast use crate::json::lemma_entry_field;

    reveal_strlit("type");
    reveal_strlit("function");
    reveal_strlit("name");
    assert("type"@.len() == 4);
    assert("function"@.len() == 8);
    assert("name"@.len() == 4);
    assert("type"@[0] != "name"@[0]);
    let inner = obj().entry("name"@, JsonView::Text(name));
    assert(inner.get("name"@) == Some(JsonView::Text(name)));
    let chosen = function_choice(name);
    assert(chosen.get("type"@) == Some(JsonView::Text("function"@)));
    assert(chosen.get("function"@) == Some(inner));
}

/// Whether tools were only added to others, behind them.
pub open spec fn extended(before: Seq<ToolView>, after: Seq<ToolView>) -> bool {
    before.len() <= after.len() && after.take(before.len() as int) == before
}

proof fn lemma_extended_twice(
    before: Seq<ToolView>,
    between: Seq<ToolView>,
    after: Seq<ToolView>,
)
    requires
        extended(before, between),
        extended(between, after),
    ensures
        extended(before, after),
{
    assert(after.take(before.len() as int) =~= between.take(before.len() as int)) by {
        assert(after.take(between.len() as int).take(before.len() as int) =~= after.take(
            before.len() as int,
        ));
    }
}

proof fn lemma_tool_extends(tools: Seq<ToolView>, tool: ToolView)
    ensures
        extended(tools, with_tool(tools, tool)),
{
    assert(tools.take(tools.len() as int) =~= tools);
    assert(tools.push(tool).take(tools.len() as int) =~= tools);
}

proof fn lemma_function_extends(
    tools: Seq<ToolView>,
    tool: JsonView,
    namespace: Option<Seq<char>>,
)
    ensures
        extended(tools, with_function(tools, tool, namespace)),
{
    assert(tools.take(tools.len() as int) =~= tools);
    if let Some(name) = tool_name(tool) {
        let chat_name = match namespace {
            Some(namespace) => flat_name(namespace, name),
            None => name,
        };
        if let Some(chat_tool) = chat_function_tool(tool, chat_name) {
            lemma_tool_extends(
                tools,
                ToolView {
                    chat_name,
                    kind: if namespace is Some {
                        ChatToolKind::Namespace
                    } else {
                        ChatToolKind::Function
                    },
                    name,
                    namespace,
                    chat_tool,
                },
            );
        }
    }
}

proof fn lemma_children_extend(
    tools: Seq<ToolView>,
    namespace: Seq<char>,
    children: Seq<JsonView>,
    count: int,
)
    ensures
        extended(tools, with_children(tools, namespace, children, count)),
    decreases count,
{
    assert(tools.take(tools.len() as int) =~= tools);
    if 0 < count <= children.len() {
        lemma_children_extend(tools, namespace, children, count - 1);
        let before = with_children(tools, namespace, children, count - 1);
        lemma_function_extends(before, children[count - 1], Some(namespace));
        lemma_extended_twice(
            tools,
            before,
            with_function(before, children[count - 1], Some(namespace)),
        );
    }
}

proof fn lemma_response_tool_extends(tools: Seq<ToolView>, tool: JsonView)
    ensures
        extended(tools, with_response_tool(tools, tool)),
{
    assert(tools.take(tools.len() as int) =~= tools);
    lemma_function_extends(tools, tool, None);
    lemma_tool_extends(
        tools,
        ToolView {
            chat_name: "tool_search"@,
            kind: ChatToolKind::ToolSearch,
            name: "tool_search"@,
            namespace: None,
            chat_tool: chat_tool_search(),
        },
    );
    let custom = if let JsonView::Text(name) = tool {
        bare_custom_tool(name)
    } else {
        tool
    };
    if let Some(name) = tool_name(custom) {
        lemma_tool_extends(
            tools,
            ToolView {
                chat_name: name,
                kind: ChatToolKind::Custom,
                name,
                namespace: None,
                chat_tool: chat_custom_tool(custom, name),
            },
        );
    }
    match (tool.get_text("name"@), either(tool.get("tools"@), tool.get("children"@))) {
        (Some(namespace), Some(JsonView::Array(children))) => {
            lemma_children_extend(tools, namespace, children, children.len() as int);
        },
        _ => {},
    }
}

proof fn lemma_response_tools_extend(
    tools: Seq<ToolView>,
    list: Seq<JsonView>,
    from: int,
    count: int,
)
    requires
        0 <= from <= count <= list.len(),
    ensures
        extended(
            with_response_tools(tools, list, from),
            with_response_tools(tools, list, count),
        ),
    decreases count - from,
{
    let start = with_response_tools(tools, list, from);
    assert(start.take(start.len() as int) =~= start);
    if from < count {
        lemma_response_tools_extend(tools, list, from, count - 1);
        let before = with_response_tools(tools, list, count - 1);
        lemma_response_tool_extends(before, list[count - 1]);
        lemma_extended_twice(start, before, with_response_tool(before, list[count - 1]));
    }
}

proof fn lemma_tool_list_extends(tools: Seq<ToolView>, list: Option<JsonView>)
    ensures
        extended(tools, with_tool_list(tools, list)),
{
    assert(tools.take(tools.len() as int) =~= tools);
    if let Some(JsonView::Array(items)) = list {
        lemma_response_tools_extend(tools, items, 0, items.len() as int);
    }
}

proof fn lemma_additional_extends(tools: Seq<ToolView>, value: JsonView)
    ensures
        extended(tools, with_additional(tools, value)),
    decreases value, 1int,
{
    assert(tools.take(tools.len() as int) =~= tools);
    match value {
        JsonView::Object(_) => {
            let own = with_tool_list(tools, value.get("additional_tools"@));
            let first = with_additional_in(own, value, "input"@);
            let second = with_additional_in(first, value, "override"@);
            let third = with_additional_in(second, value, "overrides"@);
            lemma_tool_list_extends(tools, value.get("additional_tools"@));
            lemma_additional_in_extends(own, value, "input"@);
            lemma_additional_in_extends(first, value, "override"@);
            lemma_additional_in_extends(second, value, "overrides"@);
            lemma_extended_twice(tools, own, first);
            lemma_extended_twice(tools, first, second);
            lemma_extended_twice(tools, second, third);
        },
        JsonView::Array(items) => {
            lemma_additional_items_extend(tools, items, items.len() as int);
        },
        _ => {},
    }
}

proof fn lemma_additional_in_extends(tools: Seq<ToolView>, value: JsonView, key: Seq<char>)
    ensures
        extended(tools, with_additional_in(tools, value, key)),
    decreases value, 0int,
{
    assert(tools.take(tools.len() as int) =~= tools);
    if value.get(key) is Some {
        lemma_field_is_smaller(value, key);
        lemma_additional_extends(tools, value.get(key)->0);
    }
}

proof fn lemma_additional_items_extend(tools: Seq<ToolView>, items: Seq<JsonView>, count: int)
    ensures
        extended(tools, with_additional_items(tools, items, count)),
    decreases items, count,
{
    assert(tools.take(tools.len() as int) =~= tools);
    if 0 < count <= items.len() {
        lemma_additional_items_extend(tools, items, count - 1);
        let before = with_additional_items(tools, items, count - 1);
        lemma_additional_extends(before, items[count - 1]);
        lemma_extended_twice(tools, before, with_additional(before, items[count - 1]));
    }
}

proof fn lemma_found_extends(tools: Seq<ToolView>, value: JsonView)
    ensures
        extended(tools, with_found(tools, value)),
    decreases value, 0int,
{
    assert(tools.take(tools.len() as int) =~= tools);
    match value {
        JsonView::Array(items) => {
            lemma_found_items_extend(tools, items, items.len() as int);
        },
        JsonView::Object(fields) => {
            lemma_tool_list_extends(tools, value.get("tools"@));
            let own = if value.get_text("type"@) == Some("tool_search_output"@) {
                with_tool_list(tools, value.get("tools"@))
            } else {
                tools
            };
            lemma_found_fields_extend(own, fields, fields.len() as int);
            lemma_extended_twice(
                tools,
                own,
                with_found_fields(own, fields, fields.len() as int),
            );
        },
        _ => {},
    }
}

proof fn lemma_found_items_extend(tools: Seq<ToolView>, items: Seq<JsonView>, count: int)
    ensures
        extended(tools, with_found_items(tools, items, count)),
    decreases items, count,
{
    assert(tools.take(tools.len() as int) =~= tools);
    if 0 < count <= items.len() {
        lemma_found_items_extend(tools, items, count - 1);
        let before = with_found_items(tools, items, count - 1);
        lemma_found_extends(before, items[count - 1]);
        lemma_extended_twice(tools, before, with_found(before, items[count - 1]));
    }
}

proof fn lemma_found_fields_extend(
    tools: Seq<ToolView>,
    fields: Seq<(Seq<char>, JsonView)>,
    count: int,
)
    ensures
        extended(tools, with_found_fields(tools, fields, count)),
    decreases fields, count,
{
    assert(tools.take(tools.len() as int) =~= tools);
    if 0 < count <= fields.len() {
        lemma_found_fields_extend(tools, fields, count - 1);
        let before = with_found_fields(tools, fields, count - 1);
        lemma_found_extends(before, fields[count - 1].1);
        lemma_extended_twice(tools, before, with_found(before, fields[count - 1].1));
    }
}

/// Every function that a request lists is among its tools, under its name: the
/// one that is listed first of that name, with its own parameters.
pub proof fn law_listed_functions_are_tools_of_the_request(
    request: JsonView,
    list: Seq<JsonView>,
    index: int,
    name: Seq<char>,
    parameters: JsonView,
)
    requires
        request.get("tools"@) == Some(JsonView::Array(list)),
        0 <= index < list.len(),
        list[index] is Object,
        list[index].get_text("type"@) == Some("function"@),
        list[index].get("function"@) is None,
        list[index].get("name"@) == Some(JsonView::Text(name)),
        trim(name) == name,
        name.len() > 0,
        list[index].get("parameters"@) == Some(parameters),
        parameters.get_text("type"@) == Some("object"@),
    ensures
        tool_named(request_tools(request), name) is Some,
        tool_named(with_response_tools(seq![], list, index), name) is None ==> (tool_named(
            request_tools(request),
            name,
        ) matches Some(offered) && offered.name == name && (offered.chat_tool.get(
            "function"@,
        ) matches Some(function) && function.get_text("name"@) == Some(name) && function.get(
            "parameters"@,
        ) == Some(parameters))),
{
    let none = Seq::<ToolView>::empty();
    let before = with_response_tools(none, list, index);
    let after = with_response_tools(none, list, index + 1);
    let own = with_tool_list(none, request.get("tools"@));
    let additional = with_additional(own, request);
    let all = request_tools(request);
    assert(after == with_response_tool(before, list[index]));
    lemma_response_tools_extend(none, list, index + 1, list.len() as int);
    lemma_additional_extends(own, request);
    lemma_extended_twice(after, own, additional);
    if let Some(input) = request.get("input"@) {
        lemma_found_extends(additional, input);
        lemma_extended_twice(after, additional, all);
    }
    if tool_named(before, name) is None {
        law_functions_are_offered_to_the_model(before, list[index], name, parameters);
        lemma_still_named(after, all, name);
    } else {
        lemma_response_tool_extends(before, list[index]);
        lemma_extended_twice(before, after, all);
        lemma_still_named(before, all, name);
    }
}

proof fn lemma_namespaced(
    tools: Seq<ToolView>,
    namespace: Seq<char>,
    name: Seq<char>,
    chat_name: Seq<char>,
    place: int,
)
    requires
        0 <= place < tools.len(),
        tools[place].namespace == Some(namespace),
        tools[place].name == name,
        forall|i: int|
            0 <= i < tools.len() && (#[trigger] tools[i]).namespace == Some(namespace)
                && tools[i].name == name ==> tools[i].chat_name == chat_name,
    ensures
        namespaced_tool(tools, namespace, name) == Some(chat_name),
    decreases tools.len(),
{
    if !(tools.last().namespace == Some(namespace) && tools.last().name == name) {
        let front = tools.drop_last();
        assert(front[place] == tools[place]);
        assert forall|i: int|
            0 <= i < front.len() && (#[trigger] front[i]).namespace == Some(namespace)
                && front[i].name == name implies front[i].chat_name == chat_name by {
            assert(front[i] == tools[i]);
        }
        lemma_namespaced(front, namespace, name, chat_name, place);
    }
}

/// A function of a namespace that a request names goes to the model under the name
/// that the model has for it, and a function without a namespace under its own.
pub proof fn law_functions_are_called_as_the_model_knows_them(
    tools: Seq<ToolView>,
    namespace: Seq<char>,
    name: Seq<char>,
    chat_name: Seq<char>,
    place: int,
)
    requires
        namespace.len() > 0,
        0 <= place < tools.len(),
        tools[place].namespace == Some(namespace),
        tools[place].name == name,
        forall|i: int|
            0 <= i < tools.len() && (#[trigger] tools[i]).namespace == Some(namespace)
                && tools[i].name == name ==> tools[i].chat_name == chat_name,
    ensures
        chat_name_of(tools, name, Some(namespace)) == chat_name,
        chat_name_of(tools, name, None) == name,
        chat_name_of(seq![], name, Some(namespace)) == flat_name(namespace, name),
{
    lemma_namespaced(tools, namespace, name, chat_name, place);
}

proof fn lemma_earlier_extends(tools: Seq<ToolView>, earlier: Seq<ToolView>, from: int, count: int)
    requires
        0 <= from <= count <= earlier.len(),
    ensures
        extended(with_earlier(tools, earlier, from), with_earlier(tools, earlier, count)),
    decreases count - from,
{
    let start = with_earlier(tools, earlier, from);
    assert(start.take(start.len() as int) =~= start);
    if from < count {
        lemma_earlier_extends(tools, earlier, from, count - 1);
        let before = with_earlier(tools, earlier, count - 1);
        let after = with_earlier(tools, earlier, count);
        assert(before.take(before.len() as int) =~= before);
        let chat_tool = earlier[count - 1].chat_tool;
        if let Some(name) = function_name(chat_tool) {
            if let Some(tool) = tool_named(earlier, name) {
                lemma_tool_extends(before, ToolView { chat_name: name, chat_tool, ..tool });
            }
        }
        lemma_extended_twice(start, before, after);
    }
}

/// A request that goes on with a conversation has the tools of that conversation
/// too; a tool of its own of the same name counts before.
pub proof fn law_earlier_tools_stay_at_hand(
    tools: Seq<ToolView>,
    earlier: Seq<ToolView>,
    index: int,
    name: Seq<char>,
)
    requires
        storable(earlier),
        0 <= index < earlier.len(),
    ensures
        tool_named(
            with_earlier(tools, earlier, earlier.len() as int),
            earlier[index].chat_name,
        ) is Some,
        tool_named(tools, name) is Some ==> tool_named(
            with_earlier(tools, earlier, earlier.len() as int),
            name,
        ) == tool_named(tools, name),
{
    let count = earlier.len() as int;
    let all = with_earlier(tools, earlier, count);
    let tool = earlier[index];
    lemma_earlier_extends(tools, earlier, 0, count);
    lemma_earlier_extends(tools, earlier, index + 1, count);
    if tool_named(tools, name) is Some {
        lemma_still_named(tools, all, name);
    }
    let before = with_earlier(tools, earlier, index);
    let after = with_earlier(tools, earlier, index + 1);
    assert(function_name(tool.chat_tool) == Some(tool.chat_name));
    lemma_found_by_name(earlier, index);
    let known = tool_named(earlier, tool.chat_name)->0;
    let added = ToolView { chat_name: tool.chat_name, chat_tool: tool.chat_tool, ..known };
    assert(after == with_tool(before, added));
    assert(trim(tool.chat_name).len() > 0);
    lemma_added_is_named(before, added);
    lemma_still_named(after, all, tool.chat_name);
}

proof fn lemma_found_by_name(tools: Seq<ToolView>, index: int)
    requires
        0 <= index < tools.len(),
    ensures
        tool_named(tools, tools[index].chat_name) is Some,
    decreases tools.len(),
{
    if index > 0 {
        assert(tools.drop_first()[index - 1] == tools[index]);
        lemma_found_by_name(tools.drop_first(), index - 1);
    }
}

} // verus!
