//! The torrent data model: lifecycle states, per-file priorities,
//! piece states, peers, and the snapshot record that the coordinator
//! keeps for every engine-tracked torrent.
//!
//! The engine reports raw values over its call boundary (state codes,
//! piece characters, wire priorities); the decoders here turn them into
//! the typed model, and their contracts pin the fixed protocol mapping.

use vstd::prelude::*;

verus! {

/// Download priority of a single file inside a torrent.
///
/// The wire mapping Skip 0, Low 1, Default 4, High 7 is a fixed
/// protocol constant of the engine boundary.
#[derive(PartialEq, Eq, Structural, Clone, Copy, Debug)]
pub enum TorrentFilePriority {
    Skip,
    Default,
    Low,
    High,
}

/// Lifecycle state of a torrent, as reported by the engine.
#[derive(PartialEq, Eq, Structural, Clone, Copy, Debug)]
pub enum TorrentState {
    QueuedForChecking,
    CheckingFiles,
    DownloadingMetaData,
    Downloading,
    Finished,
    Seeding,
    Allocating,
    CheckingResumeData,
    Paused,
}

/// State of a single piece of a torrent.
#[derive(PartialEq, Eq, Structural, Clone, Copy, Debug)]
pub enum TorrentPieceState {
    Complete,
    Incomplete,
    Queued,
}

/// One file of a torrent: its path inside the torrent and its
/// current download priority.
#[derive(PartialEq, Clone, Debug)]
pub struct File {
    pub path: String,
    pub priority: TorrentFilePriority,
}

/// One peer of a torrent. Peer lists are replaced wholesale on every
/// fetch, never diffed. Progress is kept in permille (0..=1000).
#[derive(PartialEq, Clone, Debug)]
pub struct Peer {
    pub ip_address: String,
    pub client: String,
    pub progress_permille: u32,
    pub download_rate: i64,
    pub upload_rate: i64,
}

/// Snapshot record of one torrent. Its index in the coordinator's
/// snapshot list is its externally visible identity; the whole record
/// is rebuilt on every refresh. Progress is kept in permille.
#[derive(PartialEq, Clone, Debug)]
pub struct Torrent {
    pub name: String,
    pub save_path: String,
    pub progress_permille: u32,
    pub state: TorrentState,
    pub total_size: i64,
    pub download_rate: i64,
    pub upload_rate: i64,
    pub num_peers: i32,
    pub num_seeds: i32,
    pub pieces: Vec<TorrentPieceState>,
    pub is_streaming: bool,
    pub files: Vec<File>,
    pub peers: Vec<Peer>,
    pub hash: String,
    pub comment: String,
    pub piece_len: i64,
    pub pieces_downloaded: i32,
    pub active_duration: i32,
    pub seeding_duration: i32,
    pub next_announce: i64,
    pub total_download: i64,
    pub total_upload: i64,
    pub total_ses_download: i64,
    pub total_ses_upload: i64,
    pub eta: i64,
}

/// Raw per-torrent data as the engine hands it over the boundary:
/// the state as an integer code, pieces as one byte each, and file
/// priorities on the wire scale.
#[derive(Clone, Debug)]
pub struct TorrentInfo {
    pub name: String,
    pub save_path: String,
    pub progress_permille: u32,
    pub state_code: i32,
    pub total_size: i64,
    pub download_rate: i64,
    pub upload_rate: i64,
    pub num_peers: i32,
    pub num_seeds: i32,
    pub pieces: Vec<u8>,
    pub is_streaming: bool,
    pub files: Vec<(String, u8)>,
}

/// Wire value of a file priority: Skip 0, Low 1, Default 4, High 7.
pub open spec fn spec_priority_to_wire(p: TorrentFilePriority) -> u8 {
    match p {
        TorrentFilePriority::Skip => 0,
        TorrentFilePriority::Low => 1,
        TorrentFilePriority::Default => 4,
        TorrentFilePriority::High => 7,
    }
}

/// Priority decoded from a wire value; anything unknown falls back to
/// Default.
pub open spec fn spec_priority_from_wire(w: u8) -> TorrentFilePriority {
    if w == 0 {
        TorrentFilePriority::Skip
    } else if w == 1 {
        TorrentFilePriority::Low
    } else if w == 7 {
        TorrentFilePriority::High
    } else {
        TorrentFilePriority::Default
    }
}

pub fn priority_to_wire(p: TorrentFilePriority) -> (w: u8)
    ensures
        w == spec_priority_to_wire(p),
{
    match p {
        TorrentFilePriority::Skip => 0,
        TorrentFilePriority::Low => 1,
        TorrentFilePriority::Default => 4,
        TorrentFilePriority::High => 7,
    }
}

pub fn priority_from_wire(w: u8) -> (p: TorrentFilePriority)
    ensures
        p == spec_priority_from_wire(w),
{
    match w {
        0 => TorrentFilePriority::Skip,
        1 => TorrentFilePriority::Low,
        7 => TorrentFilePriority::High,
        _ => TorrentFilePriority::Default,
    }
}

/// The priority mapping is a bijection between the four priorities and
/// the wire values {0, 1, 4, 7}: decoding inverts encoding, and
/// encoding inverts decoding on the four defined wire values.
pub proof fn lemma_priority_wire_bijection()
    ensures
        forall|p: TorrentFilePriority|
            #[trigger] spec_priority_from_wire(spec_priority_to_wire(p)) == p,
        forall|w: u8|
            (w == 0 || w == 1 || w == 4 || w == 7) ==> #[trigger] spec_priority_to_wire(
                spec_priority_from_wire(w),
            ) == w,
{
}

/// Lifecycle state decoded from the engine's integer code; anything
/// unknown is treated as Paused.
pub open spec fn spec_state_from_code(code: i32) -> TorrentState {
    if code == 0 {
        TorrentState::QueuedForChecking
    } else if code == 1 {
        TorrentState::CheckingFiles
    } else if code == 2 {
        TorrentState::DownloadingMetaData
    } else if code == 3 {
        TorrentState::Downloading
    } else if code == 4 {
        TorrentState::Finished
    } else if code == 5 {
        TorrentState::Seeding
    } else if code == 6 {
        TorrentState::Allocating
    } else if code == 7 {
        TorrentState::CheckingResumeData
    } else {
        TorrentState::Paused
    }
}

pub fn state_from_code(code: i32) -> (s: TorrentState)
    ensures
        s == spec_state_from_code(code),
{
    match code {
        0 => TorrentState::QueuedForChecking,
        1 => TorrentState::CheckingFiles,
        2 => TorrentState::DownloadingMetaData,
        3 => TorrentState::Downloading,
        4 => TorrentState::Finished,
        5 => TorrentState::Seeding,
        6 => TorrentState::Allocating,
        7 => TorrentState::CheckingResumeData,
        _ => TorrentState::Paused,
    }
}

/// Piece state decoded from the engine's per-piece byte: `c` complete,
/// `q` queued, anything else incomplete.
pub open spec fn spec_piece_from_byte(b: u8) -> TorrentPieceState {
    if b == 99 {
        TorrentPieceState::Complete
    } else if b == 113 {
        TorrentPieceState::Queued
    } else {
        TorrentPieceState::Incomplete
    }
}

pub fn piece_from_byte(b: u8) -> (p: TorrentPieceState)
    ensures
        p == spec_piece_from_byte(b),
{
    if b == 99 {
        TorrentPieceState::Complete
    } else if b == 113 {
        TorrentPieceState::Queued
    } else {
        TorrentPieceState::Incomplete
    }
}

impl TorrentState {
    /// Human-readable label of the state.
    pub open spec fn spec_label(self) -> Seq<char> {
        match self {
            TorrentState::QueuedForChecking => "Queued for checking"@,
            TorrentState::CheckingFiles => "Checking files"@,
            TorrentState::DownloadingMetaData => "Downloading metadata"@,
            TorrentState::Downloading => "Downloading"@,
            TorrentState::Finished => "Finished"@,
            TorrentState::Seeding => "Seeding"@,
            TorrentState::Allocating => "Allocating"@,
            TorrentState::CheckingResumeData => "Checking resume data"@,
            TorrentState::Paused => "Paused"@,
        }
    }

    pub fn label(&self) -> (r: String)
        ensures
            r@ == self.spec_label(),
    {
        match self {
            TorrentState::QueuedForChecking => "Queued for checking".to_owned(),
            TorrentState::CheckingFiles => "Checking files".to_owned(),
            TorrentState::DownloadingMetaData => "Downloading metadata".to_owned(),
            TorrentState::Downloading => "Downloading".to_owned(),
            TorrentState::Finished => "Finished".to_owned(),
            TorrentState::Seeding => "Seeding".to_owned(),
            TorrentState::Allocating => "Allocating".to_owned(),
            TorrentState::CheckingResumeData => "Checking resume data".to_owned(),
            TorrentState::Paused => "Paused".to_owned(),
        }
    }
}

impl Torrent {
    /// A freshly tracked torrent before its first refresh: default
    /// metrics, checking resume data, no pieces, files or peers.
    pub fn new(name: String, save_path: String) -> (t: Torrent)
        ensures
            t.name == name,
            t.save_path == save_path,
            t.progress_permille == 0,
            t.state == TorrentState::CheckingResumeData,
            t.total_size == 0,
            t.download_rate == 0,
            t.upload_rate == 0,
            t.num_peers == 0,
            t.num_seeds == 0,
            t.pieces@ == Seq::<TorrentPieceState>::empty(),
            t.is_streaming == false,
            t.files@ == Seq::<File>::empty(),
            t.peers@ == Seq::<Peer>::empty(),
            t.hash@ == Seq::<char>::empty(),
            t.comment@ == Seq::<char>::empty(),
            t.piece_len == 0,
            t.pieces_downloaded == 0,
            t.active_duration == 0,
            t.seeding_duration == 0,
            t.next_announce == 0,
            t.total_download == 0,
            t.total_upload == 0,
            t.total_ses_download == 0,
            t.total_ses_upload == 0,
            t.eta == 0,
    {
        Torrent {
            name,
            save_path,
            progress_permille: 0,
            state: TorrentState::CheckingResumeData,
            total_size: 0,
            download_rate: 0,
            upload_rate: 0,
            num_peers: 0,
            num_seeds: 0,
            pieces: Vec::new(),
            is_streaming: false,
            files: Vec::new(),
            peers: Vec::new(),
            hash: String::new(),
            comment: String::new(),
            piece_len: 0,
            pieces_downloaded: 0,
            active_duration: 0,
            seeding_duration: 0,
            next_announce: 0,
            total_download: 0,
            total_upload: 0,
            total_ses_download: 0,
            total_ses_upload: 0,
            eta: 0,
        }
    }

    /// The list entry's heading: the torrent's name, or its hash while
    /// the name is still unknown.
    pub fn display_title(&self) -> (r: &String)
        ensures
            r@ == if self.name@.len() == 0 {
                self.hash@
            } else {
                self.name@
            },
    {
        if self.name.as_str().is_empty() {
            &self.hash
        } else {
            &self.name
        }
    }
}

/// How a snapshot record relates to the raw engine data it was decoded
/// from: every scalar copied, the state code, piece bytes and wire
/// priorities decoded, and no peer data (peers arrive only through a
/// dedicated fetch).
pub open spec fn torrent_matches_info(t: Torrent, info: TorrentInfo) -> bool {
    &&& t.name@ == info.name@
    &&& t.save_path@ == info.save_path@
    &&& t.progress_permille == info.progress_permille
    &&& t.state == spec_state_from_code(info.state_code)
    &&& t.total_size == info.total_size
    &&& t.download_rate == info.download_rate
    &&& t.upload_rate == info.upload_rate
    &&& t.num_peers == info.num_peers
    &&& t.num_seeds == info.num_seeds
    &&& t.pieces@.len() == info.pieces@.len()
    &&& forall|j: int|
        0 <= j < info.pieces@.len() ==> t.pieces@[j] == spec_piece_from_byte(info.pieces@[j])
    &&& t.is_streaming == info.is_streaming
    &&& t.files@.len() == info.files@.len()
    &&& forall|j: int|
        0 <= j < info.files@.len() ==> {
            &&& (#[trigger] t.files@[j]).path@ == info.files@[j].0@
            &&& t.files@[j].priority == spec_priority_from_wire(info.files@[j].1)
        }
    &&& t.peers@ == Seq::<Peer>::empty()
    &&& t.hash@ == Seq::<char>::empty()
    &&& t.comment@ == Seq::<char>::empty()
    &&& t.piece_len == 0
    &&& t.pieces_downloaded == 0
    &&& t.active_duration == 0
    &&& t.seeding_duration == 0
    &&& t.next_announce == 0
    &&& t.total_download == 0
    &&& t.total_upload == 0
    &&& t.total_ses_download == 0
    &&& t.total_ses_upload == 0
    &&& t.eta == 0
}

/// Decode one raw engine record into a fresh snapshot record.
pub fn torrent_from_info(info: &TorrentInfo) -> (t: Torrent)
    ensures
        torrent_matches_info(t, *info),
{
    let mut pieces: Vec<TorrentPieceState> = Vec::new();
    let mut i: usize = 0;
    while i < info.pieces.len()
        invariant
            i <= info.pieces@.len(),
            pieces@.len() == i,
            forall|j: int|
                0 <= j < i as int ==> pieces@[j] == spec_piece_from_byte(info.pieces@[j]),
        decreases info.pieces@.len() - i,
    {
        pieces.push(piece_from_byte(info.pieces[i]));
        i = i + 1;
    }

    let mut files: Vec<File> = Vec::new();
    let mut k: usize = 0;
    while k < info.files.len()
        invariant
            k <= info.files@.len(),
            files@.len() == k,
            forall|j: int|
                0 <= j < k as int ==> {
                    &&& (#[trigger] files@[j]).path@ == info.files@[j].0@
                    &&& files@[j].priority == spec_priority_from_wire(info.files@[j].1)
                },
        decreases info.files@.len() - k,
    {
        let path = info.files[k].0.clone();
        let priority = priority_from_wire(info.files[k].1);
        files.push(File { path, priority });
        k = k + 1;
    }

    Torrent {
        name: info.name.clone(),
        save_path: info.save_path.clone(),
        progress_permille: info.progress_permille,
        state: state_from_code(info.state_code),
        total_size: info.total_size,
        download_rate: info.download_rate,
        upload_rate: info.upload_rate,
        num_peers: info.num_peers,
        num_seeds: info.num_seeds,
        pieces,
        is_streaming: info.is_streaming,
        files,
        peers: Vec::new(),
        hash: String::new(),
        comment: String::new(),
        piece_len: 0,
        pieces_downloaded: 0,
        active_duration: 0,
        seeding_duration: 0,
        next_announce: 0,
        total_download: 0,
        total_upload: 0,
        total_ses_download: 0,
        total_ses_upload: 0,
        eta: 0,
    }
}

} // verus!
