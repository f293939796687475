//! Core of an HTTP/1.1 + HTTP/2 client: the protocol engine, the task model,
//! and the body/codec pipeline, with the protocol decisions stated as
//! contracts and proved.
//!
//! The engine is a cooperative state machine over a single connection. All
//! decisions (state transitions, task selection, header parsing, body
//! delimiting, codec selection) live here as verified functions on plain
//! values; the surrounding I/O loop feeds bytes in and carries bytes out.

pub mod body;
pub mod chunked;
pub mod conn;
pub mod engine;
pub mod err;
pub mod header;
pub mod http11;
pub mod limit;
pub mod response;
pub mod strutil;
pub mod task;
pub mod unit;
