use torrenter::torrent::{
    piece_from_byte, priority_from_wire, priority_to_wire, state_from_code, torrent_from_info,
    Torrent, TorrentFilePriority, TorrentInfo, TorrentPieceState, TorrentState,
};

#[test]
fn test_priority_wire_mapping() {
    assert_eq!(priority_to_wire(TorrentFilePriority::Skip), 0);
    assert_eq!(priority_to_wire(TorrentFilePriority::Low), 1);
    assert_eq!(priority_to_wire(TorrentFilePriority::Default), 4);
    assert_eq!(priority_to_wire(TorrentFilePriority::High), 7);
    assert_eq!(priority_from_wire(0), TorrentFilePriority::Skip);
    assert_eq!(priority_from_wire(1), TorrentFilePriority::Low);
    assert_eq!(priority_from_wire(4), TorrentFilePriority::Default);
    assert_eq!(priority_from_wire(7), TorrentFilePriority::High);
    // unknown wire values fall back to the default priority
    assert_eq!(priority_from_wire(3), TorrentFilePriority::Default);
    assert_eq!(priority_from_wire(255), TorrentFilePriority::Default);
}

#[test]
fn test_priority_wire_roundtrip() {
    for p in [
        TorrentFilePriority::Skip,
        TorrentFilePriority::Low,
        TorrentFilePriority::Default,
        TorrentFilePriority::High,
    ] {
        assert_eq!(priority_from_wire(priority_to_wire(p)), p);
    }
    for w in [0u8, 1, 4, 7] {
        assert_eq!(priority_to_wire(priority_from_wire(w)), w);
    }
}

#[test]
fn test_state_from_code() {
    assert_eq!(state_from_code(0), TorrentState::QueuedForChecking);
    assert_eq!(state_from_code(1), TorrentState::CheckingFiles);
    assert_eq!(state_from_code(2), TorrentState::DownloadingMetaData);
    assert_eq!(state_from_code(3), TorrentState::Downloading);
    assert_eq!(state_from_code(4), TorrentState::Finished);
    assert_eq!(state_from_code(5), TorrentState::Seeding);
    assert_eq!(state_from_code(6), TorrentState::Allocating);
    assert_eq!(state_from_code(7), TorrentState::CheckingResumeData);
    assert_eq!(state_from_code(8), TorrentState::Paused);
    assert_eq!(state_from_code(-1), TorrentState::Paused);
}

#[test]
fn test_piece_from_byte() {
    assert_eq!(piece_from_byte(b'c'), TorrentPieceState::Complete);
    assert_eq!(piece_from_byte(b'q'), TorrentPieceState::Queued);
    assert_eq!(piece_from_byte(b'i'), TorrentPieceState::Incomplete);
    assert_eq!(piece_from_byte(b'x'), TorrentPieceState::Incomplete);
}

#[test]
fn test_state_label() {
    assert_eq!(TorrentState::QueuedForChecking.label(), "Queued for checking");
    assert_eq!(TorrentState::DownloadingMetaData.label(), "Downloading metadata");
    assert_eq!(TorrentState::CheckingResumeData.label(), "Checking resume data");
    assert_eq!(TorrentState::Paused.label(), "Paused");
}

#[test]
fn test_torrent_new_defaults() {
    let t = Torrent::new("name".to_string(), "/downloads".to_string());
    assert_eq!(t.name, "name");
    assert_eq!(t.save_path, "/downloads");
    assert_eq!(t.progress_permille, 0);
    assert_eq!(t.state, TorrentState::CheckingResumeData);
    assert!(t.pieces.is_empty());
    assert!(t.files.is_empty());
    assert!(t.peers.is_empty());
    assert!(!t.is_streaming);
    assert_eq!(t.hash, "");
    assert_eq!(t.eta, 0);
}

#[test]
fn test_display_title_falls_back_to_hash() {
    let mut t = Torrent::new("".to_string(), "".to_string());
    t.hash = "abcdef".to_string();
    assert_eq!(t.display_title(), "abcdef");
    t.name = "My Torrent".to_string();
    assert_eq!(t.display_title(), "My Torrent");
}

#[test]
fn test_torrent_from_info() {
    let info = TorrentInfo {
        name: "show".to_string(),
        save_path: "/dl".to_string(),
        progress_permille: 425,
        state_code: 3,
        total_size: 1_000_000,
        download_rate: 2048,
        upload_rate: 512,
        num_peers: 7,
        num_seeds: 3,
        pieces: vec![b'c', b'i', b'q', b'?'],
        is_streaming: true,
        files: vec![
            ("show/e1.mkv".to_string(), 4u8),
            ("show/e2.mkv".to_string(), 0u8),
        ],
    };
    let t = torrent_from_info(&info);
    assert_eq!(t.name, "show");
    assert_eq!(t.save_path, "/dl");
    assert_eq!(t.progress_permille, 425);
    assert_eq!(t.state, TorrentState::Downloading);
    assert_eq!(t.total_size, 1_000_000);
    assert_eq!(t.download_rate, 2048);
    assert_eq!(t.upload_rate, 512);
    assert_eq!(t.num_peers, 7);
    assert_eq!(t.num_seeds, 3);
    assert_eq!(
        t.pieces,
        vec![
            TorrentPieceState::Complete,
            TorrentPieceState::Incomplete,
            TorrentPieceState::Queued,
            TorrentPieceState::Incomplete,
        ]
    );
    assert!(t.is_streaming);
    assert_eq!(t.files.len(), 2);
    assert_eq!(t.files[0].path, "show/e1.mkv");
    assert_eq!(t.files[0].priority, TorrentFilePriority::Default);
    assert_eq!(t.files[1].path, "show/e2.mkv");
    assert_eq!(t.files[1].priority, TorrentFilePriority::Skip);
    assert!(t.peers.is_empty());
    assert_eq!(t.hash, "");
}
