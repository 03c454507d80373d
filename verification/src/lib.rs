//! A torrent-management shell: a deduplicated file tree for per-file
//! priority control, a versioned snapshot of torrent state, and a
//! coordinator state machine that serializes every call against the
//! underlying torrent engine.

pub mod coordinator;
pub mod duration;
pub mod fs_tree;
pub mod message;
pub mod torrent;
pub mod views;
