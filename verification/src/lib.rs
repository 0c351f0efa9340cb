//! Verified core of a streaming LLM chat server.
//!
//! The library holds the decision logic of the server: request validation,
//! the per-request generation session (token bookkeeping, incremental UTF-8
//! assembly of streamed pieces, terminal-event discipline), the round-robin
//! decode scheduler, the server-sent-event frame encoding, and an in-memory
//! model of the chat store. I/O, the transformer forward pass and the
//! sampler live outside the library and hand it plain values.

pub mod events;
pub mod host;
pub mod router;
pub mod scheduler;
pub mod session;
pub mod sse;
pub mod store;
pub mod types;
pub mod ui;
pub mod utf8buf;
