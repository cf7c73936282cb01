//! An event manager for file descriptors, and a chat server that runs on it.
//!
//! [`pollable`] says what can be watched and for what, [`event_manager`] keeps
//! track of who watches what and hands events to their handlers, and [`chat`]
//! is one such handler. None of them touches a descriptor: each says which
//! system call is due, and goes on from the answer that it is given.
pub mod chat;
pub mod event_manager;
pub mod laws;
pub mod pollable;
pub mod protocol;
pub mod readiness;
pub mod text;
