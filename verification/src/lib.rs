//! Core of a multi-transport ping-pong service.
//!
//! A single stateful handler (a monotonic counter of processed requests) is
//! reachable over several transports.  This crate holds the verified core:
//! the message model, the handler and its mailbox, the named registry with
//! last-writer-wins gossip merging, the JSON wire codec used by the
//! WebSocket transport, and the per-connection and client step logic.
//! Network listeners, dialers and the event loops around them live outside
//! the library and drive it through these functions.
pub mod client;
pub mod codec;
pub mod gossip;
pub mod handler;
pub mod mailbox;
pub mod msg;
pub mod registry;
pub mod wire;

pub use msg::Ping;
pub use msg::PingV;
pub use msg::Pong;
pub use msg::PongV;
pub use msg::PongReply;
