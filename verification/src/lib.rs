//! A Telegram front end for an opencode server: access control, message
//! formatting, streaming state and the decisions around them.
pub mod text;
pub mod markdown;
pub mod access;
pub mod clock;
pub mod stream;
pub mod sse;
pub mod telegram;
pub mod opencode;
pub mod download;
pub mod models;
pub mod message;
pub mod config;
pub mod session;
pub mod queue;
