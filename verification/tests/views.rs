use torrenter::fs_tree::FSTree;
use torrenter::message::{AddTorrentKind, Message};
use torrenter::torrent::{File, TorrentFilePriority};
use torrenter::views::{
    dir_checked, dir_toggle_messages, dropped_file_message, file_add_message,
    file_toggle_message, is_torrent_selected, magnet_paste_message, selection_after_info_click,
    tab_fetch_message, trim_text, DropWidget, FilesWidget, Tab, TabView,
};

#[test]
fn test_tab_view_new() {
    let t = TabView::new();
    assert_eq!(t.selected, Tab::General);
    assert_eq!(t.tabs[0], (Tab::General, "General".to_string(), false));
    assert_eq!(t.tabs[1], (Tab::Files, "Files".to_string(), false));
    assert_eq!(t.tabs[2], (Tab::Peers, "Peers".to_string(), false));
}

#[test]
fn test_tab_fetch_message() {
    assert_eq!(tab_fetch_message(Tab::General, 2), None);
    assert_eq!(tab_fetch_message(Tab::Files, 2), Some(Message::FetchFiles(2)));
    assert_eq!(tab_fetch_message(Tab::Peers, 2), Some(Message::FetchPeers(2)));
}

#[test]
fn test_selection_logic() {
    assert!(!is_torrent_selected(None, 0));
    assert!(is_torrent_selected(Some(1), 0));
    assert!(!is_torrent_selected(Some(1), 1));
    assert_eq!(selection_after_info_click(None, 4), Some(5));
    assert_eq!(selection_after_info_click(Some(5), 4), None);
    assert_eq!(selection_after_info_click(Some(2), 4), Some(5));
}

#[test]
fn test_drop_widget_new() {
    let w = DropWidget::new(true, false);
    assert!(w.about_to_drop);
    assert!(!w.is_clicked);
}

#[test]
fn test_enabled_flags() {
    let files = vec![
        File { path: "a".to_string(), priority: TorrentFilePriority::Default },
        File { path: "b".to_string(), priority: TorrentFilePriority::Skip },
        File { path: "c".to_string(), priority: TorrentFilePriority::High },
    ];
    let w = FilesWidget::new(&files, 0);
    assert_eq!(w.torrent_index, 0);
    assert_eq!(w.enabled_flags(), vec![true, false, true]);
}

#[test]
fn test_dir_checked_is_a_conjunction() {
    let ids = vec![0usize, 2];
    // a partially enabled directory renders unchecked
    assert!(!dir_checked(&ids, &vec![true, true, false]));
    assert!(dir_checked(&ids, &vec![true, false, true]));
    assert!(dir_checked(&Vec::new(), &Vec::new()));
}

#[test]
fn test_file_toggle_message() {
    assert_eq!(
        file_toggle_message(1, 4, false),
        Message::UpdateFilePriority(1, 4, TorrentFilePriority::Skip)
    );
    assert_eq!(
        file_toggle_message(1, 4, true),
        Message::UpdateFilePriority(1, 4, TorrentFilePriority::Default)
    );
}

#[test]
fn test_dir_toggle_fans_out_over_descendants() {
    // toggling a directory off sends one Skip per descendant file id,
    // and toggling it back on sends Default for the same set
    let paths = vec![
        "s/a".to_string(),
        "s/b".to_string(),
        "s/sub/c".to_string(),
        "other".to_string(),
    ];
    let tree = FSTree::from_paths(paths).unwrap();
    let s = tree.find_child(0, &"s".to_string()).unwrap();
    let mut ids: Vec<usize> = Vec::new();
    tree.path_ids(s, &mut ids);
    let mut sorted = ids.clone();
    sorted.sort();
    assert_eq!(sorted, vec![0, 1, 2]);

    let off = dir_toggle_messages(7, &ids, false);
    let on = dir_toggle_messages(7, &ids, true);
    assert_eq!(off.len(), ids.len());
    assert_eq!(on.len(), ids.len());
    for (j, &id) in ids.iter().enumerate() {
        assert_eq!(
            off[j],
            Message::UpdateFilePriority(7, id, TorrentFilePriority::Skip)
        );
        assert_eq!(
            on[j],
            Message::UpdateFilePriority(7, id, TorrentFilePriority::Default)
        );
    }
}

#[test]
fn test_trim_text() {
    assert_eq!(trim_text("  magnet:?xt=abc \t\n"), "magnet:?xt=abc");
    assert_eq!(trim_text("no-change"), "no-change");
    assert_eq!(trim_text("   "), "");
    assert_eq!(trim_text(""), "");
    assert_eq!(trim_text("\u{a0}padded\u{3000}"), "padded");
}

#[test]
fn test_magnet_paste_message() {
    let m = magnet_paste_message("  magnet:?xt=abc ");
    assert_eq!(
        m,
        Message::AddTorrent("magnet:?xt=abc".to_string(), AddTorrentKind::MagnetUrl)
    );
}

#[test]
fn test_dropped_file_message() {
    // a dropped file is added unconditionally, whatever its extension
    let m = dropped_file_message("dir/anything.mkv".to_string());
    assert_eq!(
        m,
        Message::AddTorrent("dir/anything.mkv".to_string(), AddTorrentKind::File)
    );
}

#[test]
fn test_file_add_message() {
    let ok = file_add_message("dir/show.torrent".to_string());
    assert_eq!(
        ok,
        Ok(Message::AddTorrent(
            "dir/show.torrent".to_string(),
            AddTorrentKind::File
        ))
    );
    let err = file_add_message("dir/show.mkv".to_string());
    assert_eq!(err, Err("Only .torrent files are accepted.".to_string()));
    // a bare ".torrent" has no file name in front of the extension
    let err = file_add_message("dir/.torrent".to_string());
    assert!(err.is_err());
}
