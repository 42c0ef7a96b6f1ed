//! Keyword-based understanding of chat messages.

pub mod intent;
pub mod entity;
pub mod responses;
pub mod conversation;
pub mod dialogue;
