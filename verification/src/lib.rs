//! The logic of a Nix binary cache: what the services that push, serve and
//! collect store paths decide, and what the client that talks to them does.

pub mod admin;
pub mod auth;
pub mod bench;
pub mod browse;
pub mod calendar;
pub mod client;
pub mod common;
pub mod config;
pub mod db;
pub mod digest;
pub mod encoding;
pub mod eviction;
pub mod fsck;
pub mod gc;
pub mod graph;
pub mod inflight;
pub mod metrics;
pub mod multipart;
pub mod narinfo;
pub mod nix_base32;
pub mod number;
pub mod operator;
pub mod order;
pub mod prune;
pub mod puller;
pub mod pusher;
pub mod storage;
pub mod table;
pub mod text;
pub mod verify;
