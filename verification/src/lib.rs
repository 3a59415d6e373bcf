//! Polling directory watcher: snapshots of a tree, a two-slot buffer that
//! holds the last two of them, and the diff that turns two consecutive
//! snapshots into change events.

pub mod paths;
pub mod model;
pub mod snapshot;
pub mod diff;
pub mod laws;
pub mod walker;
pub mod file_scanner;
pub mod render;
