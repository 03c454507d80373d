use torrenter::coordinator::{
    outcome_notice, Coordinator, Directive, EngineOp, ToastKind,
};
use torrenter::message::{AddTorrentKind, Message};
use torrenter::torrent::{Peer, TorrentInfo, TorrentState};

fn sample_info(name: &str) -> TorrentInfo {
    TorrentInfo {
        name: name.to_string(),
        save_path: "/dl".to_string(),
        progress_permille: 500,
        state_code: 3,
        total_size: 1000,
        download_rate: 10,
        upload_rate: 5,
        num_peers: 2,
        num_seeds: 1,
        pieces: vec![b'c', b'i'],
        is_streaming: false,
        files: vec![("a".to_string(), 4u8)],
    }
}

fn seeded(n: usize) -> Coordinator {
    let mut c = Coordinator::new();
    let infos: Vec<TorrentInfo> = (0..n).map(|i| sample_info(&format!("t{}", i))).collect();
    c.apply_refresh(&infos);
    c
}

#[test]
fn test_refresh_throttled_within_window() {
    // two Refresh commands within 900ms run exactly one cycle
    let mut c = Coordinator::new();
    let (d1, f1) = c.step(Message::Refresh, 1000);
    assert_eq!(d1, Directive::RunRefresh);
    assert!(f1.is_none());
    let (d2, f2) = c.step(Message::Refresh, 1500);
    assert_eq!(d2, Directive::Idle);
    assert!(f2.is_none());
    // after the window has passed, a refresh runs again
    let (d3, _) = c.step(Message::Refresh, 1901);
    assert_eq!(d3, Directive::RunRefresh);
}

#[test]
fn test_forced_refresh_ignores_window() {
    let mut c = Coordinator::new();
    let (d1, _) = c.step(Message::Refresh, 1000);
    assert_eq!(d1, Directive::RunRefresh);
    let (d2, _) = c.step(Message::ForcedRefresh, 1001);
    assert_eq!(d2, Directive::RunRefresh);
}

#[test]
fn test_stop_is_terminal() {
    let mut c = seeded(1);
    assert!(!c.safe_to_exit);
    let (d, f) = c.step(Message::Stop, 10);
    assert_eq!(d, Directive::CallShutdown);
    assert!(f.is_none());
    assert!(c.stopped);
    assert!(c.safe_to_exit);
    // nothing after a Stop is processed
    let (d2, f2) = c.step(Message::ForcedRefresh, 11);
    assert_eq!(d2, Directive::Idle);
    assert!(f2.is_none());
    let (d3, _) = c.step(Message::RemoveTorrent(0), 12);
    assert_eq!(d3, Directive::Idle);
    assert!(c.safe_to_exit);
    assert_eq!(c.torrents.len(), 1);
}

#[test]
fn test_remove_then_forced_refresh_replaces_snapshot() {
    let mut c = seeded(2);
    // give torrent 0 peers, so stale data would be visible
    c.apply_peers(
        0,
        vec![Peer {
            ip_address: "10.0.0.1".to_string(),
            client: "x".to_string(),
            progress_permille: 100,
            download_rate: 1,
            upload_rate: 1,
        }],
    );
    assert_eq!(c.torrents[0].peers.len(), 1);

    let (d, f) = c.step(Message::RemoveTorrent(0), 50);
    assert_eq!(d, Directive::CallRemove(0));
    assert_eq!(f, Some(Message::ForcedRefresh));
    // the engine now reports one torrent; the forced refresh lands
    let infos = vec![sample_info("survivor")];
    c.apply_refresh(&infos);
    assert_eq!(c.torrents.len(), 1);
    assert_eq!(c.torrents[0].name, "survivor");
    // no stale peer data survives into the new entry at that slot
    assert!(c.torrents[0].peers.is_empty());
}

#[test]
fn test_stale_index_is_noop() {
    let mut c = seeded(1);
    let before_version = c.version;
    for msg in [
        Message::RemoveTorrent(5),
        Message::ToggleStreamMode(5),
        Message::UpdateState(TorrentState::Paused, 5),
        Message::UpdateFilePriority(5, 0, torrenter::torrent::TorrentFilePriority::Skip),
        Message::FetchPeers(5),
        Message::FetchFiles(5),
    ] {
        let (d, f) = c.step(msg, 60);
        assert_eq!(d, Directive::Idle);
        assert!(f.is_none());
    }
    assert_eq!(c.version, before_version);
    assert_eq!(c.torrents.len(), 1);
}

#[test]
fn test_update_state_pauses_or_resumes() {
    let mut c = seeded(1);
    let (d, f) = c.step(Message::UpdateState(TorrentState::Paused, 0), 70);
    assert_eq!(d, Directive::CallResume(0));
    assert_eq!(f, Some(Message::ForcedRefresh));
    let (d, _) = c.step(Message::UpdateState(TorrentState::Downloading, 0), 71);
    assert_eq!(d, Directive::CallPause(0));
}

#[test]
fn test_add_torrent_forces_refresh() {
    let mut c = Coordinator::new();
    let (d, f) = c.step(
        Message::AddTorrent("magnet:?xt=abc".to_string(), AddTorrentKind::MagnetUrl),
        80,
    );
    assert_eq!(
        d,
        Directive::CallAdd("magnet:?xt=abc".to_string(), AddTorrentKind::MagnetUrl)
    );
    assert_eq!(f, Some(Message::ForcedRefresh));
}

#[test]
fn test_selection_and_open_dir() {
    let mut c = Coordinator::new();
    let (d, f) = c.step(Message::UpdateSelTorrent(Some(3)), 90);
    assert_eq!(d, Directive::Idle);
    assert!(f.is_none());
    assert_eq!(c.sel_torrent, Some(3));
    let (d, _) = c.step(Message::OpenDir("/dl".to_string()), 91);
    assert_eq!(d, Directive::OpenDirectory("/dl".to_string()));
}

#[test]
fn test_apply_peers_replaces_only_that_torrent() {
    let mut c = seeded(2);
    let v0 = c.version;
    let peer = Peer {
        ip_address: "10.0.0.2".to_string(),
        client: "client".to_string(),
        progress_permille: 900,
        download_rate: 3,
        upload_rate: 4,
    };
    c.apply_peers(1, vec![peer.clone()]);
    assert_eq!(c.torrents[1].peers, vec![peer]);
    assert!(c.torrents[0].peers.is_empty());
    assert_eq!(c.torrents[1].name, "t1");
    assert_ne!(c.version, v0);
    // out-of-range fetch results are dropped
    c.apply_peers(9, Vec::new());
    assert_eq!(c.torrents.len(), 2);
}

#[test]
fn test_apply_files_decodes_wire_priorities() {
    let mut c = seeded(1);
    c.apply_files(0, &vec![("x".to_string(), 7u8), ("y".to_string(), 0u8)]);
    assert_eq!(c.torrents[0].files.len(), 2);
    assert_eq!(c.torrents[0].files[0].path, "x");
    assert_eq!(
        c.torrents[0].files[0].priority,
        torrenter::torrent::TorrentFilePriority::High
    );
    assert_eq!(
        c.torrents[0].files[1].priority,
        torrenter::torrent::TorrentFilePriority::Skip
    );
}

#[test]
fn test_outcome_notice_messages() {
    let (kind, text) = outcome_notice(EngineOp::Add, true).unwrap();
    assert_eq!(kind, ToastKind::Success);
    assert_eq!(text, "Added new torrent.");
    let (kind, text) = outcome_notice(EngineOp::Add, false).unwrap();
    assert_eq!(kind, ToastKind::Error);
    assert_eq!(text, "Failed to add new torrent.");
    let (kind, text) = outcome_notice(EngineOp::Remove, false).unwrap();
    assert_eq!(kind, ToastKind::Error);
    assert_eq!(text, "Failed to remove torrent.");
    assert!(outcome_notice(EngineOp::SetFilePriority, true).is_none());
    let (_, text) = outcome_notice(EngineOp::SetFilePriority, false).unwrap();
    assert_eq!(text, "Failed to change priority.");
    let (_, text) = outcome_notice(EngineOp::SetState, false).unwrap();
    assert_eq!(text, "Failed to pause/resume torrent state.");
    assert!(outcome_notice(EngineOp::ToggleStream, true).is_none());
}
