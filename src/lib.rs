//! Deferred per-recipient chat notes: the duration and message-definition
//! grammars, the message record, the per-recipient store and the decisions
//! that drive scheduled delivery.

pub mod text;
pub mod clock;
pub mod duration_parser;
pub mod message;
pub mod message_parser;
pub mod message_store;
pub mod scheduler;
pub mod display;
pub mod commands;
