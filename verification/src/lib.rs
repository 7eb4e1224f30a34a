//! Demultiplexer for a line-delimited, server-sent chat response stream.
//!
//! A response body arrives as chunks of text. Each chunk holds lines; a line
//! of the form `data: "<JSON string>"` carries one payload. The frame filter
//! decides, payload by payload, what reaches the consumer: sentinels open and
//! close the message, and one leading blank payload is absorbed.
//!
//! - [`filter`]: the filter as a state machine over payloads, in `spec` code.
//! - [`wire`]: lines, candidates and payloads of a chunk.
//! - [`response`]: [`ResponseState`], the filter that runs.
//! - [`request`]: what the status of a response decides.
//! - [`laws`]: what holds of the filter on every input.
//! - [`text`], [`utf8`]: work on `str` and the facts about UTF-8 behind it.
//! - [`json`]: the one call that is trusted, into `serde_json`.

pub mod filter;
pub mod json;
pub mod laws;
pub mod request;
pub mod response;
pub mod text;
pub mod utf8;
pub mod wire;

pub use request::{open_conversation, StatusError};
pub use response::ResponseState;
