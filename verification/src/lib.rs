//! The chunk-generation orchestrator's verified core.
//!
//! An operator supplies a game version and a set of chunk coordinates; a
//! headless server of that version is staged and launched, bots join it,
//! and the coordinator herds them until the server has loaded and
//! persisted every requested chunk. This crate holds the decisions and
//! data of that coordinator: the staging file tree and its mounter, the
//! `server.properties` overlay, the version and Java-runtime resolution,
//! the bot login policy and the worker schedule over the shared pending
//! set, and the region-file and record codecs used to verify the result.
//! Process, network and disk plumbing live outside the crate and act only
//! on values these functions hand them.

pub mod chunk;
pub mod text;
pub mod tree;
pub mod executor;
pub mod pending;
pub mod bot;
pub mod memfs;
pub mod fetcher;
pub mod convert;
pub mod props;
pub mod stage;
pub mod vanilla;
pub mod mc_java;
pub mod nbt;
pub mod region;
