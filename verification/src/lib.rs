//! Synchronisation core of a collaborative modal text editor.
//!
//! Clients edit a shared text buffer concurrently. Every edit is an
//! [`operation::Operation`]; the server orders the operations of all clients
//! into one timeline and every client rebases its unacknowledged edits onto
//! what the server reports.

pub mod agreement;
pub mod buffer;
pub mod buffer_operator;
pub mod command;
pub mod cursor;
pub mod error;
pub mod laws;
pub mod operation;
pub mod ted;
pub mod ted_client;
pub mod ted_server;
pub mod text;
pub mod trie;
pub mod view;
