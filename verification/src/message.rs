//! The command surface: typed commands that UI and event sources put
//! on the bus and the coordinator consumes strictly in order.

use vstd::prelude::*;
use crate::torrent::{TorrentFilePriority, TorrentState};

verus! {

/// What an added torrent's source string denotes: a path to a torrent
/// file, or a magnet URI.
#[derive(PartialEq, Eq, Structural, Clone, Copy, Debug)]
pub enum AddTorrentKind {
    File,
    MagnetUrl,
}

/// A command for the coordinator. Commands referring to a torrent
/// carry its index in the snapshot list, which is its identity until
/// the next refresh lands.
#[derive(PartialEq, Clone, Debug)]
pub enum Message {
    /// Shut the engine down and terminate the coordinator.
    Stop,
    /// Refresh the snapshot unless one just ran.
    Refresh,
    /// Refresh the snapshot unconditionally.
    ForcedRefresh,
    /// Add a torrent from a file path or a magnet URI.
    AddTorrent(String, AddTorrentKind),
    /// Remove the torrent at an index.
    RemoveTorrent(usize),
    /// Pause or resume the torrent at an index, given its current state.
    UpdateState(TorrentState, usize),
    /// Select a torrent for the detail pane (one-based), or close it.
    UpdateSelTorrent(Option<usize>),
    /// Toggle sequential streaming of the torrent at an index.
    ToggleStreamMode(usize),
    /// Change one file's download priority: torrent index, file index,
    /// new priority.
    UpdateFilePriority(usize, usize, TorrentFilePriority),
    /// Re-read the peer list of the torrent at an index.
    FetchPeers(usize),
    /// Re-read the file list of the torrent at an index.
    FetchFiles(usize),
    /// Open a directory in the platform's file browser.
    OpenDir(String),
}

} // verus!
