//! A dotfile manager with topics and conflict resolution: what it decides and computes.
//!
//! Files of the home directory are grouped into topics by a manifest, which is written in Lua.
//! Each topic has a branch in a bare git repository, the store, and each machine has a branch of
//! its own that tells what it last had. A synchronization captures the files of each topic, merges
//! them with the branch, and writes back what came of it.
//!
//! Whoever uses this library does the input and output: the functions here take what was read and
//! give back what is to be done.

pub mod bytes;
pub mod chezmoi;
pub mod engine;
pub mod hooks;
pub mod lua;
pub mod lua_runtime;
pub mod manifest;
pub mod object;
pub mod order;
pub mod paths;
pub mod rooted_tree;
pub mod scan;
pub mod store;
pub mod text;
pub mod ui;
pub mod util;
