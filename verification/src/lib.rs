//! Near-real-time intel alerts from a game client's chat logs.
//!
//! The library holds the verified core: the universe graph and its shortest
//! route search, the chat-log header scanner and field parser, the
//! incremental channel tailer, the intel classifier and the debounce queue
//! that coalesces duplicate reports before they are dispatched.

pub mod channels;
pub mod chat;
pub mod config;
pub mod codec;
pub mod graph;
pub mod header;
pub mod intel;
pub mod notifications;
pub mod text;
pub mod universe;
