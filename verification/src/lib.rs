//! A bridge between an external controller and a terminal-multiplexer host.
//!
//! The library decodes JSON command requests arriving on a named channel,
//! validates the fields each action requires, decides which host capability
//! to invoke, and encodes a uniform JSON response. The host calls themselves
//! (scrollback reads, keystroke injection, renames, session switching) are
//! performed by the embedding plugin; this crate holds the protocol and the
//! dispatch rules, all of it verified.

pub mod cache;
pub mod codec;
pub mod dispatch;
pub mod json;
pub mod msg;
pub mod pipe;
pub mod strutil;

pub use msg::Request;
pub use msg::Response;
pub use msg::SessionInfo;
