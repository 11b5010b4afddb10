//! Addresses of upstream servers.
use crate::json::str_view;
use crate::preflight::ResponseTransform;
use crate::text::{
    after_prefix, begins, chars_of, concat2, concat3, contains, ends, ends_with, holds,
    law_texts_are_parted_at_the_first_place, law_texts_without_a_mark_are_not_parted, lower, lowered, parted, same, split_once, starts_with, string_view, strip_prefix, text_of, trim,
    trimmed,
};
use vstd::prelude::*;
use vstd::string::*;

verus! {

/// The host of a URL.
#[derive(Debug)]
pub enum UrlHost {
    Missing,
    Domain(String),
    Ipv4(u32),
    Ipv6(u128),
}

/// The parts of a URL that are looked at.
#[derive(Debug)]
pub struct UrlParts {
    pub host: UrlHost,
    pub host_text: Option<String>,
    pub path: String,
}

/// What a `UrlHost` says.
#[verifier::ext_equal]
pub enum HostView {
    Missing,
    Domain(Seq<char>),
    Ipv4(u32),
    Ipv6(u128),
}

/// What a `UrlParts` says.
#[verifier::ext_equal]
pub struct UrlView {
    pub host: HostView,
    pub host_text: Option<Seq<char>>,
    pub path: Seq<char>,
}

impl View for UrlParts {
    type V = UrlView;

    open spec fn view(&self) -> UrlView {
        UrlView {
            host: match self.host {
                UrlHost::Missing => HostView::Missing,
                UrlHost::Domain(name) => HostView::Domain(name@),
                UrlHost::Ipv4(bits) => HostView::Ipv4(bits),
                UrlHost::Ipv6(bits) => HostView::Ipv6(bits),
            },
            host_text: string_view(self.host_text),
            path: self.path@,
        }
    }
}

/// What `url::Url::parse` makes of a text, by its host and its path.
pub uninterp spec fn parsed_url(text: Seq<char>) -> Option<UrlView>;

/// `url::Url::parse` reads an absolute URL; its host and its path are a function
/// of the text.
#[verifier::external_body]
pub(crate) fn parse_url(address: &str) -> (parts: Option<UrlParts>)
    ensures
        match parts {
            Some(parts) => parsed_url(address@) == Some(parts@),
            None => parsed_url(address@) is None,
        },
{
    let url = url::Url::parse(address).ok()?;
    let host = match url.host() {
        None => UrlHost::Missing,
        Some(url::Host::Domain(name)) => UrlHost::Domain(name.to_owned()),
        Some(url::Host::Ipv4(address)) => UrlHost::Ipv4(address.into()),
        Some(url::Host::Ipv6(address)) => UrlHost::Ipv6(address.into()),
    };
    let host_text = url.host_str().map(str::to_owned);
    Some(UrlParts { host, host_text, path: url.path().to_owned() })
}

/// What is in front of the query of an address.
pub open spec fn without_query(url: Seq<char>) -> Seq<char> {
    match parted(url, '?') {
        Some((path, _)) => path,
        None => url,
    }
}

fn path_of(url: &str) -> (path: String)
    ensures
        path@ == without_query(url@),
{
    match split_once(url, '?') {
        Some((path, _)) => path,
        None => url.to_owned(),
    }
}

/// Whether an address is that of responses, or of their compaction.
pub open spec fn responses_url(url: Seq<char>) -> bool {
    ends(without_query(url), "/responses"@) || ends(without_query(url), "/responses/compact"@)
}

/// Whether an address is that of responses, or of their compaction.
pub fn is_responses_url(url: &str) -> (found: bool)
    ensures
        found == responses_url(url@),
{
    let path = path_of(url);
    ends_with(&path, "/responses") || ends_with(&path, "/responses/compact")
}

/// Whether an address is that of responses.
pub open spec fn generation_url(url: Seq<char>) -> bool {
    ends(without_query(url), "/responses"@)
}

/// Whether an address is that of responses.
pub fn is_responses_generation_url(url: &str) -> (found: bool)
    ensures
        found == generation_url(url@),
{
    ends_with(&path_of(url), "/responses")
}

/// The text without slashes at its end.
pub open spec fn without_slashes(s: Seq<char>) -> Seq<char>
    decreases s.len(),
{
    if s.len() > 0 && s.last() == '/' {
        without_slashes(s.drop_last())
    } else {
        s
    }
}

/// The text without slashes at its end.
pub fn trim_slashes(text: &str) -> (result: String)
    ensures
        result@ == without_slashes(text@),
{
    let chars = chars_of(text);
    let mut end: usize = chars.len();
    assert(chars@.take(end as int) =~= chars@);
    while end > 0 && chars[end - 1] == '/'
        invariant
            end <= chars@.len(),
            chars@ == text@,
            without_slashes(text@) == without_slashes(chars@.take(end as int)),
        decreases end,
    {
        assert(chars@.take(end as int).drop_last() =~= chars@.take(end - 1));
        end -= 1;
    }
    assert(chars@.subrange(0, end as int) =~= chars@.take(end as int));
    text_of(vstd::slice::slice_subrange(chars.as_slice(), 0, end))
}

/// What the relay needs to know of a provider to reach it.
#[derive(Debug)]
pub struct ProviderRoute {
    pub id: String,
    /// Whether it is the official service.
    pub official_codex: bool,
    pub base_url: String,
    /// Whether the base URL is an endpoint already, and no prefix.
    pub base_url_is_endpoint: bool,
    /// Whether the endpoint speaks Chat Completions.
    pub endpoint_is_chat_completions: bool,
    /// Names of models as clients know them, with the names at the provider.
    pub model_map: Vec<(String, String)>,
}

/// An address with a query behind it.
pub open spec fn with_query(url: Seq<char>, query: Option<Seq<char>>) -> Seq<char> {
    match query {
        Some(query) => url.push('?') + query,
        None => url,
    }
}

fn append_query(url: &mut String, query: Option<&str>)
    ensures
        final(url)@ == with_query(
            old(url)@,
            match query {
                Some(query) => Some(query@),
                None => None,
            },
        ),
{
    if let Some(query) = query {
        url.push('?');
        url.append(query);
    }
}

/// The query of an address, if it is not empty.
pub open spec fn some_query(url: Seq<char>) -> Option<Seq<char>> {
    match parted(url, '?') {
        Some((_, query)) => if query.len() > 0 {
            Some(query)
        } else {
            None
        },
        None => None,
    }
}

/// The address of Chat Completions of a provider, given the address that the
/// request would go to.
pub open spec fn chat_url(base_url: Seq<char>, is_endpoint: bool, upstream: Seq<char>) -> Seq<char> {
    let base = without_slashes(base_url);
    if is_endpoint {
        upstream
    } else {
        with_query(
            if ends(base, "/chat/completions"@) {
                base
            } else if ends(base, "/v1"@) {
                base + "/chat/completions"@
            } else {
                base + "/v1/chat/completions"@
            },
            some_query(upstream),
        )
    }
}

/// The address of Chat Completions of a provider.
pub fn chat_completions_url(provider: &ProviderRoute, upstream: &str) -> (url: String)
    ensures
        url@ == chat_url(provider.base_url@, provider.base_url_is_endpoint, upstream@),
{
    if provider.base_url_is_endpoint {
        return upstream.to_owned();
    }
    let base = trim_slashes(&provider.base_url);
    let mut url = if ends_with(&base, "/chat/completions") {
        base
    } else if ends_with(&base, "/v1") {
        concat2(&base, "/chat/completions")
    } else {
        concat2(&base, "/v1/chat/completions")
    };
    if let Some((_, query)) = split_once(upstream, '?') {
        if !query.as_str().is_empty() {
            append_query(&mut url, Some(query.as_str()));
        }
    }
    url
}

/// Whether a provider is known to take the key of a prompt cache, by its host
/// and its path.
pub open spec fn takes_cache_key(url: Option<UrlView>) -> bool {
    match url {
        Some(parts) => match parts.host_text {
            Some(host) => {
                let path = without_slashes(parts.path);
                ||| lower(host) == "api.openai.com"@
                ||| lower(host) == "api.kimi.com"@ && (path == "/coding"@ || begins(
                    path,
                    "/coding/"@,
                ))
            },
            None => false,
        },
        None => false,
    }
}

/// Whether a provider of this address is known to take the key of a prompt
/// cache.
pub fn url_takes_cache_key(parts: &UrlParts) -> (found: bool)
    ensures
        found == takes_cache_key(Some(parts@)),
{
    match &parts.host_text {
        Some(host) => {
            let host = lowered(host);
            if same(&host, "api.openai.com") {
                return true;
            }
            let path = trim_slashes(&parts.path);
            same(&host, "api.kimi.com") && (same(&path, "/coding") || starts_with(
                &path,
                "/coding/",
            ))
        },
        None => false,
    }
}

/// Whether a provider is known to take the key of a prompt cache.
pub fn provider_supports_chat_prompt_cache_key(provider: &ProviderRoute) -> (found: bool)
    ensures
        found == takes_cache_key(parsed_url(trim(provider.base_url@))),
{
    match parse_url(&trimmed(&provider.base_url)) {
        Some(parts) => url_takes_cache_key(&parts),
        None => false,
    }
}

/// An address with the version of the client behind it, unless it names one.
pub open spec fn with_version(url: Seq<char>, version: Seq<char>) -> Seq<char> {
    if holds(url, "client_version="@) {
        url
    } else {
        url.push(
            if holds(url, "?"@) {
                '&'
            } else {
                '?'
            },
        ) + "client_version="@ + version
    }
}

/// Adds the version of the client to an address, unless it names one.
pub fn append_client_version(url: String, version: &str) -> (result: String)
    ensures
        result@ == with_version(url@, version@),
{
    if contains(&url, "client_version=") {
        return url;
    }
    let mut url = url;
    if contains(&url, "?") {
        url.push('&');
    } else {
        url.push('?');
    }
    url.append("client_version=");
    url.append(version);
    url
}

/// The path below the address of a provider: without the prefix `/v1`.
pub open spec fn path_below(path: Seq<char>) -> Seq<char> {
    if path == "/v1"@ {
        "/"@
    } else {
        match after_prefix(path, "/v1/"@) {
            Some(rest) => "/"@ + rest,
            None => path,
        }
    }
}

/// Where a request to compact goes at an endpoint for responses.
pub open spec fn compact_endpoint(base_url: Seq<char>) -> Option<Seq<char>> {
    let base = trim(base_url);
    let endpoint = without_slashes(without_query(base));
    if ends(endpoint, "/responses"@) {
        Some(with_query(endpoint + "/compact"@, some_query(base)))
    } else {
        None
    }
}

/// The address that a request goes to. An endpoint takes every request, but for
/// the compaction beside an endpoint for responses; below a prefix the path of
/// the request is kept without `/v1`, and the official service is told the
/// version of the client.
pub open spec fn request_url(
    base_url: Seq<char>,
    is_endpoint: bool,
    official: bool,
    path_and_query: Option<Seq<char>>,
    version: Seq<char>,
) -> Seq<char> {
    if is_endpoint {
        let compacts = path_and_query matches Some(target) && ends(
            without_query(target),
            "/responses/compact"@,
        );
        match compact_endpoint(base_url) {
            Some(endpoint) => if compacts {
                endpoint
            } else {
                trim(base_url)
            },
            None => trim(base_url),
        }
    } else {
        let target = match path_and_query {
            Some(target) => target,
            None => "/"@,
        };
        let url = with_query(
            without_slashes(base_url) + path_below(without_query(target)),
            match parted(target, '?') {
                Some((_, query)) => Some(query),
                None => None,
            },
        );
        if official {
            with_version(url, version)
        } else {
            url
        }
    }
}

fn compact_endpoint_of(base_url: &str) -> (endpoint: Option<String>)
    ensures
        string_view(endpoint) == compact_endpoint(base_url@),
{
    let base = trimmed(base_url);
    let endpoint = trim_slashes(&path_of(&base));
    if !ends_with(&endpoint, "/responses") {
        return None;
    }
    let mut url = concat2(&endpoint, "/compact");
    if let Some((_, query)) = split_once(&base, '?') {
        if !query.as_str().is_empty() {
            append_query(&mut url, Some(query.as_str()));
        }
    }
    Some(url)
}

fn path_below_of(path: &str) -> (result: String)
    ensures
        result@ == path_below(path@),
{
    if same(path, "/v1") {
        return "/".to_owned();
    }
    match strip_prefix(path, "/v1/") {
        Some(rest) => concat2("/", &rest),
        None => path.to_owned(),
    }
}

/// The address that a request goes to.
pub fn upstream_url(provider: &ProviderRoute, path_and_query: Option<&str>, client_version: &str) -> (url:
    String)
    ensures
        url@ == request_url(
            provider.base_url@,
            provider.base_url_is_endpoint,
            provider.official_codex,
            str_view(path_and_query),
            client_version@,
        ),
{
    if provider.base_url_is_endpoint {
        let compacts = match path_and_query {
            Some(target) => ends_with(&path_of(target), "/responses/compact"),
            None => false,
        };
        if compacts {
            if let Some(endpoint) = compact_endpoint_of(&provider.base_url) {
                return endpoint;
            }
        }
        return trimmed(&provider.base_url);
    }
    let target = match path_and_query {
        Some(target) => target,
        None => "/",
    };
    let mut url = concat2(&trim_slashes(&provider.base_url), &path_below_of(&path_of(target)));
    if let Some((_, query)) = split_once(target, '?') {
        append_query(&mut url, Some(query.as_str()));
    }
    if provider.official_codex {
        append_client_version(url, client_version)
    } else {
        url
    }
}

/// Whether a request asks for a response to be generated.
pub open spec fn generates(method: Seq<char>, path_and_query: Option<Seq<char>>) -> bool {
    method == "POST"@ && (path_and_query matches Some(target) && generation_url(target))
}

/// Whether a request asks for a response to be generated.
pub fn generates_response(method: &str, path_and_query: Option<&str>) -> (found: bool)
    ensures
        found == generates(method@, str_view(path_and_query)),
{
    same(method, "POST") && match path_and_query {
        Some(target) => is_responses_generation_url(target),
        None => false,
    }
}

/// What has to be done with the response to a request.
pub fn response_transform(
    endpoint_is_chat_completions: bool,
    method: &str,
    path_and_query: Option<&str>,
) -> (transform: ResponseTransform)
    ensures
        transform == if generates(method@, str_view(path_and_query))
            && endpoint_is_chat_completions {
            ResponseTransform::ChatCompletionsToResponses
        } else {
            ResponseTransform::Passthrough
        },
{
    if generates_response(method, path_and_query) && endpoint_is_chat_completions {
        ResponseTransform::ChatCompletionsToResponses
    } else {
        ResponseTransform::Passthrough
    }
}

/// How a request could not be sent.
#[derive(Debug, Clone, Copy, PartialEq, Eq, Structural)]
pub enum SendFault {
    Timeout,
    Connect,
    Other,
}

/// The message about a request that could not be sent.
pub open spec fn send_fault_text(fault: SendFault, url: Option<UrlView>) -> Seq<char> {
    let endpoint = match url {
        Some(parts) => match parts.host_text {
            Some(host) => host,
            None => "上游服务"@,
        },
        None => "上游服务"@,
    };
    (match fault {
        SendFault::Timeout => "上游网络连接超时（"@,
        SendFault::Connect => "上游网络连接失败（"@,
        SendFault::Other => "上游网络请求失败（"@,
    }) + endpoint + "）"@
}

/// The message about a request that could not be sent to an address that was
/// read.
pub fn send_fault_message(fault: SendFault, parts: Option<&UrlParts>) -> (message: String)
    ensures
        message@ == send_fault_text(
            fault,
            match parts {
                Some(parts) => Some(parts@),
                None => None,
            },
        ),
{
    let opening = match fault {
        SendFault::Timeout => "上游网络连接超时（",
        SendFault::Connect => "上游网络连接失败（",
        SendFault::Other => "上游网络请求失败（",
    };
    let endpoint = match parts {
        Some(parts) => match &parts.host_text {
            Some(host) => host.as_str(),
            None => "上游服务",
        },
        None => "上游服务",
    };
    concat3(opening, endpoint, "）")
}

/// The message about a request that could not be sent.
pub fn format_upstream_request_error(fault: SendFault, upstream: &str) -> (message: String)
    ensures
        message@ == send_fault_text(fault, parsed_url(upstream@)),
{
    match parse_url(upstream) {
        Some(parts) => send_fault_message(fault, Some(&parts)),
        None => send_fault_message(fault, None),
    }
}

/// Whether a header of a request is passed on to the provider. Those of the
/// connection, those that carry the secrets of the client and the encodings
/// that it takes are not; of the official service some more are set anew.
pub open spec fn passes_on(name: Seq<char>, official: bool) -> bool {
    &&& name != "host"@ && name != "authorization"@ && name != "content-length"@ && name
        != "accept-encoding"@ && name != "x-api-key"@
    &&& official ==> name != "chatgpt-account-id"@ && name != "originator"@ && name != "version"@
}

/// Whether a header of a request, by its name in lower case, is passed on to
/// the provider.
pub fn forwards_request_header(name: &str, official_codex: bool) -> (forwarded: bool)
    ensures
        forwarded == passes_on(name@, official_codex),
{
    if same(name, "host") || same(name, "authorization") || same(name, "content-length") || same(
        name,
        "accept-encoding",
    ) || same(name, "x-api-key") {
        return false;
    }
    !official_codex || !(same(name, "chatgpt-account-id") || same(name, "originator") || same(
        name,
        "version",
    ))
}

/// The headers that are added to a request for the provider.
pub open spec fn added_headers(
    official: bool,
    authorization: Option<Seq<char>>,
    account: Option<Seq<char>>,
    session: Option<Seq<char>>,
) -> Seq<(Seq<char>, Seq<char>)> {
    let a: Seq<(Seq<char>, Seq<char>)> = match authorization {
        Some(value) => seq![("authorization"@, value)],
        None => seq![],
    };
    let b = match account {
        Some(value) => a.push(("ChatGPT-Account-Id"@, value)),
        None => a,
    };
    let c = match session {
        Some(value) => b.push(("session_id"@, value)),
        None => b,
    };
    if official {
        c.push(("originator"@, "codex_cli_rs"@)).push(("version"@, "0.144.1"@))
    } else {
        c
    }
}

/// What a list of names and values holds.
pub open spec fn pair_views(list: Seq<(String, String)>) -> Seq<(Seq<char>, Seq<char>)> {
    Seq::new(list.len(), |i: int| (list[i].0@, list[i].1@))
}

fn push_header(list: &mut Vec<(String, String)>, name: &str, value: &str)
    ensures
        pair_views(final(list)@) == pair_views(old(list)@).push((name@, value@)),
{
    let ghost before = pair_views(list@);
    list.push((name.to_owned(), value.to_owned()));
    assert(pair_views(list@) =~= before.push((name@, value@)));
}

/// The headers that are added to a request for the provider.
pub fn upstream_headers(
    official_codex: bool,
    authorization: Option<&str>,
    chatgpt_account_id: Option<&str>,
    session_identity: Option<&str>,
) -> (list: Vec<(String, String)>)
    ensures
        pair_views(list@) == added_headers(
            official_codex,
            str_view(authorization),
            str_view(chatgpt_account_id),
            str_view(session_identity),
        ),
{
    let mut list: Vec<(String, String)> = Vec::new();
    assert(pair_views(list@) =~= seq![]);
    if let Some(value) = authorization {
        push_header(&mut list, "authorization", value);
        assert(pair_views(list@) =~= seq![("authorization"@, value@)]);
    }
    if let Some(value) = chatgpt_account_id {
        push_header(&mut list, "ChatGPT-Account-Id", value);
    }
    if let Some(value) = session_identity {
        push_header(&mut list, "session_id", value);
    }
    if official_codex {
        push_header(&mut list, "originator", "codex_cli_rs");
        push_header(&mut list, "version", "0.144.1");
    }
    list
}

/// Whether a header of a response, by its name in lower case, is passed on to
/// the client.
pub fn forwards_response_header(name: &str) -> (forwarded: bool)
    ensures
        forwarded == (name@ != "connection"@ && name@ != "transfer-encoding"@),
{
    !same(name, "connection") && !same(name, "transfer-encoding")
}

/// Whether a content type is that of a stream of events.
pub fn is_event_stream(content_type: Option<&str>) -> (found: bool)
    ensures
        found == (str_view(content_type) matches Some(value) && holds(
            lower(value),
            "text/event-stream"@,
        )),
{
    match content_type {
        Some(value) => contains(&lowered(value), "text/event-stream"),
        None => false,
    }
}

/// The secret of the client and what marks the connection never reach the
/// provider from the headers of the request.
pub proof fn law_client_secrets_are_not_forwarded(official: bool)
    ensures
        !passes_on("authorization"@, official),
        !passes_on("x-api-key"@, official),
        !passes_on("host"@, official),
        !passes_on("accept-encoding"@, official),
        !passes_on("content-length"@, official),
{
}

/// What is in front of the first question mark is the address without its query.
proof fn lemma_without_query(path: Seq<char>, query: Seq<char>)
    requires
        forall|i: int| 0 <= i < path.len() ==> (#[trigger] path[i]) != '?',
    ensures
        parted(path, '?') is None,
        parted(path.push('?') + query, '?') == Some((path, query)),
{
    law_texts_without_a_mark_are_not_parted(path, '?');
    let whole = path.push('?') + query;
    let place = path.len() as int;
    assert(whole[place] == '?');
    assert forall|i: int| 0 <= i < place implies (#[trigger] whole[i]) != '?' by {
        assert(whole[i] == path[i]);
    }
    law_texts_are_parted_at_the_first_place(whole, '?', place);
    assert(whole.take(place) =~= path);
    assert(whole.skip(place + 1) =~= query);
}

/// A request goes below the address of its provider: its path is kept, but for
/// the prefix `/v1` that stands for the relay's own, and so is its query.
pub proof fn law_requests_keep_path_and_query(
    base: Seq<char>,
    rest: Seq<char>,
    query: Seq<char>,
    version: Seq<char>,
)
    requires
        base.len() > 0 ==> base.last() != '/',
        forall|i: int| 0 <= i < rest.len() ==> (#[trigger] rest[i]) != '?',
    ensures
        request_url(base, false, false, Some("/v1/"@ + rest), version) == base + ("/"@ + rest),
        request_url(base, false, false, Some(("/v1/"@ + rest).push('?') + query), version) == (base
            + ("/"@ + rest)).push('?') + query,
{
    reveal_strlit("/v1/");
    reveal_strlit("/v1");
    reveal_strlit("/");
    let path = "/v1/"@ + rest;
    assert("/v1/"@.len() == 4 && "/v1"@.len() == 3);
    assert forall|i: int| 0 <= i < path.len() implies (#[trigger] path[i]) != '?' by {
        if i >= 4 {
            assert(path[i] == rest[i - 4]);
        } else {
            assert(path[i] == "/v1/"@[i]);
        }
    }
    lemma_without_query(path, query);
    assert(path.take(4) =~= "/v1/"@);
    assert(path.skip(4) =~= rest);
    assert(path_below(path) == "/"@ + rest);
}

/// An endpoint takes every request at its own address; the one exception is a
/// request to compact, which goes beside an endpoint for responses.
pub proof fn law_endpoints_take_every_request(
    base: Seq<char>,
    official: bool,
    target: Option<Seq<char>>,
    version: Seq<char>,
)
    ensures
        !(target matches Some(target) && ends(without_query(target), "/responses/compact"@))
            ==> request_url(base, true, official, target, version) == trim(base),
        trim(base) == base && base.len() > 0 && base.last() != '/' && parted(base, '?') is None
            && ends(base, "/responses"@) && target == Some("/v1/responses/compact"@) ==> request_url(
            base,
            true,
            official,
            target,
            version,
        ) == base + "/compact"@,
{
    reveal_strlit("/v1/responses/compact");
    reveal_strlit("/responses/compact");
    let path = "/v1/responses/compact"@;
    assert(path.len() == 21 && "/responses/compact"@.len() == 18);
    assert forall|i: int| 0 <= i < path.len() implies (#[trigger] path[i]) != '?' by {}
    law_texts_without_a_mark_are_not_parted(path, '?');
    assert(path.skip(3) =~= "/responses/compact"@);
}

/// The official service is told the version of the client once.
pub proof fn law_the_official_service_is_told_the_version(
    base: Seq<char>,
    target: Option<Seq<char>>,
    version: Seq<char>,
)
    ensures
        ({
            let plain = request_url(base, false, false, target, version);
            let told = request_url(base, false, true, target, version);
            if holds(plain, "client_version="@) {
                told == plain
            } else {
                &&& begins(told, plain)
                &&& ends(told, "client_version="@ + version)
            }
        }),
{
    let plain = request_url(base, false, false, target, version);
    let told = request_url(base, false, true, target, version);
    let tail = "client_version="@ + version;
    if !holds(plain, "client_version="@) {
        assert(told.take(plain.len() as int) =~= plain);
        assert(told.skip(told.len() - tail.len()) =~= tail);
    }
}

/// A chat completion is asked for at the provider's address for those, below the
/// address that it was given; a query stays.
pub proof fn law_chat_completions_have_their_address(base: Seq<char>, upstream: Seq<char>)
    requires
        base.len() > 0 ==> base.last() != '/',
        parted(upstream, '?') is None,
    ensures
        ({
            let url = chat_url(base, false, upstream);
            &&& ends(url, "/chat/completions"@)
            &&& begins(url, base)
            &&& ends(base, "/chat/completions"@) ==> url == base
            &&& ends(base, "/v1"@) ==> url == base + "/chat/completions"@
        }),
        chat_url(base, true, upstream) == upstream,
{
    reveal_strlit("/v1");
    reveal_strlit("/chat/completions");
    reveal_strlit("/v1/chat/completions");
    assert("/v1"@.len() == 3 && "/chat/completions"@.len() == 17);
    assert("/v1/chat/completions"@.len() == 20);
    let url = chat_url(base, false, upstream);
    assert(url.take(base.len() as int) =~= base);
    if ends(base, "/chat/completions"@) && ends(base, "/v1"@) {
        assert(base.skip(base.len() - 3)[2] == "/v1"@[2]);
        assert(base.skip(base.len() - 17)[16] == "/chat/completions"@[16]);
    }
    if !ends(base, "/chat/completions"@) {
        assert("/v1/chat/completions"@.skip(3) =~= "/chat/completions"@);
        assert(url.skip(url.len() - 17) =~= "/chat/completions"@);
    }
}

/// Only a request that is posted to the address of responses asks for one to be
/// generated, whatever its query.
pub proof fn law_only_posted_responses_are_generated(
    method: Seq<char>,
    path: Seq<char>,
    query: Seq<char>,
)
    requires
        forall|i: int| 0 <= i < path.len() ==> (#[trigger] path[i]) != '?',
    ensures
        generates(method, Some(path)) <==> method == "POST"@ && ends(path, "/responses"@),
        generates(method, Some(path.push('?') + query)) <==> method == "POST"@ && ends(
            path,
            "/responses"@,
        ),
        !generates(method, None),
{
    lemma_without_query(path, query);
}

/// The provider's own credential, its account and the session go with a request,
/// each where there is one and nothing else, but for the names by which the
/// official service knows the client.
pub proof fn law_credentials_go_with_the_request(
    official: bool,
    authorization: Option<Seq<char>>,
    account: Option<Seq<char>>,
    session: Option<Seq<char>>,
    name: Seq<char>,
    value: Seq<char>,
)
    requires
        name == "authorization"@ || name == "ChatGPT-Account-Id"@ || name == "session_id"@,
    ensures
        added_headers(official, authorization, account, session).contains((name, value)) <==> (name
            == "authorization"@ && authorization == Some(value)) || (name == "ChatGPT-Account-Id"@
            && account == Some(value)) || (name == "session_id"@ && session == Some(value)),
{
    reveal_strlit("authorization");
    reveal_strlit("ChatGPT-Account-Id");
    reveal_strlit("session_id");
    reveal_strlit("originator");
    reveal_strlit("version");
    assert("authorization"@.len() == 13);
    assert("ChatGPT-Account-Id"@.len() == 18);
    assert("session_id"@.len() == 10);
    assert("originator"@.len() == 10);
    assert("version"@.len() == 7);
    assert("session_id"@[0] != "originator"@[0]);
    let all = added_headers(official, authorization, account, session);
    let a: Seq<(Seq<char>, Seq<char>)> = match authorization {
        Some(value) => seq![("authorization"@, value)],
        None => seq![],
    };
    let b = match account {
        Some(value) => a.push(("ChatGPT-Account-Id"@, value)),
        None => a,
    };
    if authorization is Some {
        assert(all[0] == ("authorization"@, authorization->0));
    }
    if account is Some {
        assert(all[a.len() as int] == ("ChatGPT-Account-Id"@, account->0));
    }
    if session is Some {
        assert(all[b.len() as int] == ("session_id"@, session->0));
    }
}

/// A header that is neither of the connection, nor a secret of the client, nor one
/// that the relay sets for the provider reaches the provider.
pub proof fn law_other_headers_are_forwarded(name: Seq<char>, official: bool)
    requires
        name == "content-type"@ || name == "accept"@ || name == "user-agent"@ || name
            == "openai-beta"@ || name == "session_id"@ || name == "x-session-id"@,
    ensures
        passes_on(name, official),
{
    reveal_strlit("content-type");
    reveal_strlit("accept");
    reveal_strlit("user-agent");
    reveal_strlit("openai-beta");
    reveal_strlit("session_id");
    reveal_strlit("x-session-id");
    reveal_strlit("host");
    reveal_strlit("authorization");
    reveal_strlit("content-length");
    reveal_strlit("accept-encoding");
    reveal_strlit("x-api-key");
    reveal_strlit("chatgpt-account-id");
    reveal_strlit("originator");
    reveal_strlit("version");
    assert("content-type"@.len() == 12);
    assert("accept"@.len() == 6);
    assert("user-agent"@.len() == 10);
    assert("openai-beta"@.len() == 11);
    assert("session_id"@.len() == 10);
    assert("x-session-id"@.len() == 12);
    assert("host"@.len() == 4);
    assert("authorization"@.len() == 13);
    assert("content-length"@.len() == 14);
    assert("accept-encoding"@.len() == 15);
    assert("x-api-key"@.len() == 9);
    assert("chatgpt-account-id"@.len() == 18);
    assert("originator"@.len() == 10);
    assert("version"@.len() == 7);
    assert("content-type"@[0] != "x-session-id"@[0]);
    assert("user-agent"@[0] != "session_id"@[0]);
    assert("user-agent"@[0] != "originator"@[0]);
    assert("session_id"@[0] != "originator"@[0]);
}

/// A request that could not be sent is told of by the host that it was for, and
/// by what failed.
pub proof fn law_requests_that_were_not_sent_name_their_host(
    fault: SendFault,
    url: UrlView,
    host: Seq<char>,
)
    requires
        url.host_text == Some(host),
    ensures
        ends(send_fault_text(fault, Some(url)), host + "）"@),
        send_fault_text(SendFault::Timeout, Some(url)) != send_fault_text(
            SendFault::Connect,
            Some(url),
        ),
        send_fault_text(SendFault::Connect, Some(url)) != send_fault_text(
            SendFault::Other,
            Some(url),
        ),
        send_fault_text(SendFault::Other, Some(url)) != send_fault_text(
            SendFault::Timeout,
            Some(url),
        ),
{
    reveal_strlit("上游网络连接超时（");
    reveal_strlit("上游网络连接失败（");
    reveal_strlit("上游网络请求失败（");
    let told = send_fault_text(fault, Some(url));
    let end = host + "）"@;
    assert(told.skip(told.len() - end.len()) =~= end);
    assert(send_fault_text(SendFault::Timeout, Some(url))[6] == '超');
    assert(send_fault_text(SendFault::Connect, Some(url))[6] == '失');
    assert(send_fault_text(SendFault::Other, Some(url))[6] == '失');
    assert(send_fault_text(SendFault::Connect, Some(url))[4] == '连');
    assert(send_fault_text(SendFault::Other, Some(url))[4] == '请');
}

} // verus!
