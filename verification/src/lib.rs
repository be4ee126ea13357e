//! Verified core of `oct`, a tool that synchronises an opencode
//! configuration between machines through a remote store.

pub mod backup;
pub mod bundle;
pub mod client;
pub mod clock;
pub mod codec;
pub mod config;
pub mod error;
pub mod pathname;
pub mod paths;
pub mod text;
pub mod token;
