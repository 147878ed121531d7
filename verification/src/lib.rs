//! Telegram Bot uplink for Astrid OS.
//!
//! The library holds the decisions of the bot: which updates are answered and how, which
//! requests reach the agent, and how the agent's markdown becomes Telegram HTML in messages
//! that fit. It performs no I/O: handlers return the actions to perform.
pub mod access;
pub mod actions;
pub mod bot;
pub mod digits;
pub mod format;
pub mod ipc;
pub mod json;
pub mod poll;
pub mod session;
pub mod text;
pub mod types;
pub mod words;
