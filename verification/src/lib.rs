//! Verified core of the WeCom AI-bot SDK: frame model, connection and reply-queue
//! state machine, and the `Content-Disposition` filename grammar.

pub mod types;
pub mod utils;
pub mod api;
pub mod reqset;
pub mod ws;
