//! The decision logic of a local relay in front of model providers.
pub mod text;
pub mod json;
pub mod sse;
pub mod failure;
pub mod preflight;
pub mod tool_names;
pub mod tools;
pub mod media;
pub mod reasoning;
pub mod chat_input;
pub mod history;
pub mod chat_request;
pub mod digest;
pub mod clock;
pub mod chat_response;
pub mod limits;
pub mod chat_stream;
pub mod observer;
pub mod collected;
pub mod urls;
pub mod official;
pub mod headers;
pub mod upstream;
pub mod names;
pub mod policy;
pub mod routing;
pub mod content_encoding;
pub mod request;
pub mod dispatch;
pub mod tally;
pub mod state;
pub mod account_concurrency;
pub mod events;
pub mod api_service;
pub mod server;
pub mod usage_capture;
pub mod moderation;
pub mod model_catalog;
