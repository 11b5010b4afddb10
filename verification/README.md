# codex_companion_relay

The decisions of a local relay that stands in front of model providers, verified
with Verus: which provider a request goes to, how requests and responses are
translated between protocols, what is answered when something fails, and how much
is held in memory while that happens.

* `src/` is the verified library. Every function states what it returns in its
  `ensures`; the public proof functions named `law_..` state what holds of several
  of them together.
* `tests/` runs the library, with the outside crates that it calls.
* `app/` is the service around it: sockets, files, the database, and a trait,
  `Host`, for the program that it runs in.

The modules, from the bottom up:

| Modules | What they hold |
| --- | --- |
| `text`, `names`, `json`, `digest`, `clock`, `tally` | texts, lists, JSON, digests, time, counts |
| `sse`, `failure`, `preflight`, `limits` | event streams, failures in them, limits on bodies |
| `headers`, `urls`, `official`, `upstream` | requests to providers |
| `tool_names`, `tools`, `media`, `reasoning`, `chat_input`, `history`, `chat_request` | a request as a chat completion |
| `chat_response`, `chat_stream`, `observer`, `collected` | a response that comes back |
| `content_encoding`, `request`, `policy`, `routing`, `dispatch`, `state`, `account_concurrency` | a request that comes in, and the providers that it is tried at |
| `events`, `api_service`, `server`, `usage_capture`, `moderation`, `model_catalog` | the service around it |

What outside crates compute is reached through small functions marked
`external_body`; the comment above each says what is relied on.
