//! The client: it pushes closures to the cache and sets a machine up to use
//! it.

pub mod auth;
pub mod browse;
pub mod cli;
pub mod config;
pub mod discovery;
pub mod doctor;
pub mod document;
pub mod nixconf;
pub mod push;
pub mod watcher;
