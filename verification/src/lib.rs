//! An incremental parser for the response to a WebSocket upgrade request.
//!
//! The response arrives in chunks of any size. [`upgrade::WebSocketUpgrade`]
//! takes them one by one, checks the status line, gathers the header block
//! and hands out the response together with the bytes that followed it,
//! which belong to the frame stream.

pub mod buffer;
pub mod error;
pub mod headers;
pub mod laws;
pub mod search;
pub mod upgrade;
