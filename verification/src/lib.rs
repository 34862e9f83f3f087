//! Core of a DeepSeek chat client.
//!
//! The library holds what the client decides: how the bytes of a response become
//! events, how the start and the end of a turn are recognised, what remains to be
//! done for a session, and how the tasks on an account proceed. It does no input
//! or output of its own; whoever drives it hands over what the backend gave.

pub mod accounts;
pub mod chat;
pub mod config;
pub mod encoding;
pub mod error;
pub mod json;
pub mod text;

pub use chat::event::StreamEvent;
pub use config::{AccountConfig, DsCoreConfig};
pub use error::{CoreError, PoolError};
