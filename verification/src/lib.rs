//! Mirrors a local directory tree onto a remote host: path translation,
//! ignore rules, and the decisions of the synchronisation engine.

pub mod blocklist;
pub mod cli;
pub mod errors;
pub mod local;
pub mod matcher;
pub mod memory;
pub mod paths;
pub mod remote;
pub mod text;
pub mod types;
pub mod watcher;
