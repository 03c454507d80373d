//! The decisions behind the widgets: which commands a click or a
//! checkbox toggle sends, how a directory checkbox aggregates its
//! files, which torrent the detail pane shows, and what becomes of a
//! dropped file, a picked file or a pasted magnet URI. Drawing itself
//! stays outside; these functions feed it and take its events.

use vstd::prelude::*;
use vstd::string::StrSliceExecFns;
use crate::fs_tree::FSTree;
use crate::message::{AddTorrentKind, Message};
use crate::torrent::{File, TorrentFilePriority};

verus! {

/// A tab of the torrent detail pane.
#[derive(PartialEq, Eq, Structural, Clone, Copy, Debug)]
pub enum Tab {
    General,
    Files,
    Peers,
}

/// The detail pane's tab strip: each tab with its caption and whether
/// the pointer hovers it, and the tab currently selected.
pub struct TabView {
    pub tabs: [(Tab, String, bool); 3],
    pub selected: Tab,
}

impl TabView {
    /// The tab strip as the pane first shows it: General, Files and
    /// Peers, with General selected and nothing hovered.
    pub fn new() -> (t: TabView)
        ensures
            t.tabs@.len() == 3,
            t.tabs@[0].0 == Tab::General,
            t.tabs@[1].0 == Tab::Files,
            t.tabs@[2].0 == Tab::Peers,
            t.tabs@[0].1@ == "General"@,
            t.tabs@[1].1@ == "Files"@,
            t.tabs@[2].1@ == "Peers"@,
            t.tabs@[0].2 == false,
            t.tabs@[1].2 == false,
            t.tabs@[2].2 == false,
            t.selected == Tab::General,
    {
        TabView {
            tabs: [
                (Tab::General, "General".to_owned(), false),
                (Tab::Files, "Files".to_owned(), false),
                (Tab::Peers, "Peers".to_owned(), false),
            ],
            selected: Tab::General,
        }
    }
}

/// The read the detail pane needs when drawn on a tab: the Files and
/// Peers tabs re-fetch their lists, the General tab reads the snapshot
/// alone.
pub open spec fn spec_tab_fetch(tab: Tab, index: usize) -> Option<Message> {
    match tab {
        Tab::General => None,
        Tab::Files => Some(Message::FetchFiles(index)),
        Tab::Peers => Some(Message::FetchPeers(index)),
    }
}

pub fn tab_fetch_message(tab: Tab, index: usize) -> (r: Option<Message>)
    ensures
        r == spec_tab_fetch(tab, index),
{
    match tab {
        Tab::General => None,
        Tab::Files => Some(Message::FetchFiles(index)),
        Tab::Peers => Some(Message::FetchPeers(index)),
    }
}

/// Whether the detail pane shows the torrent at `index`; the selection
/// is kept one-based, zero standing free for "nothing".
pub fn is_torrent_selected(sel: Option<usize>, index: usize) -> (r: bool)
    requires
        index < usize::MAX,
    ensures
        r == (sel == Some((index + 1) as usize)),
{
    match sel {
        Some(s) => s == index + 1,
        None => false,
    }
}

/// The selection after a click on a torrent's info button: close the
/// pane when it already shows this torrent, open it on it otherwise.
pub fn selection_after_info_click(sel: Option<usize>, index: usize) -> (r: Option<usize>)
    requires
        index < usize::MAX,
    ensures
        r == if sel == Some((index + 1) as usize) {
            None::<usize>
        } else {
            Some((index + 1) as usize)
        },
{
    if is_torrent_selected(sel, index) {
        None
    } else {
        Some(index + 1)
    }
}

/// The drag-and-drop target for torrent files; drawing reads these
/// fields, and the click lands in `is_clicked`.
pub struct DropWidget {
    pub about_to_drop: bool,
    pub is_clicked: bool,
}

impl DropWidget {
    pub fn new(about_to_drop: bool, is_clicked: bool) -> (w: DropWidget)
        ensures
            w.about_to_drop == about_to_drop,
            w.is_clicked == is_clicked,
    {
        DropWidget { about_to_drop, is_clicked }
    }
}

/// The file list of one torrent as the Files tab works with it.
pub struct FilesWidget<'a> {
    pub files: &'a Vec<File>,
    pub torrent_index: usize,
}

impl<'a> FilesWidget<'a> {
    pub fn new(files: &'a Vec<File>, index: usize) -> (w: FilesWidget<'a>)
        ensures
            w.files == files,
            w.torrent_index == index,
    {
        FilesWidget { files, torrent_index: index }
    }

    /// Whether each file downloads: everything but `Skip` is enabled.
    pub fn enabled_flags(&self) -> (r: Vec<bool>)
        ensures
            r@.len() == self.files@.len(),
            forall|j: int|
                0 <= j < self.files@.len() ==> r@[j] == (self.files@[j].priority
                    != TorrentFilePriority::Skip),
    {
        let mut flags: Vec<bool> = Vec::new();
        let mut i: usize = 0;
        while i < self.files.len()
            invariant
                i <= self.files@.len(),
                flags@.len() == i,
                forall|j: int|
                    0 <= j < i as int ==> flags@[j] == (self.files@[j].priority
                        != TorrentFilePriority::Skip),
            decreases self.files@.len() - i,
        {
            let enabled = !matches!(self.files[i].priority, TorrentFilePriority::Skip);
            flags.push(enabled);
            i = i + 1;
        }
        flags
    }
}

/// A directory checkbox is checked only when every file beneath it is
/// enabled: a conjunction, so a partially enabled directory renders
/// unchecked.
pub fn dir_checked(ids: &Vec<usize>, flags: &Vec<bool>) -> (r: bool)
    requires
        forall|j: int| 0 <= j < ids@.len() ==> (#[trigger] ids@[j]) < flags@.len(),
    ensures
        r == forall|j: int| 0 <= j < ids@.len() ==> flags@[#[trigger] ids@[j] as int],
{
    let mut i: usize = 0;
    while i < ids.len()
        invariant
            i <= ids@.len(),
            forall|j: int| 0 <= j < ids@.len() ==> (#[trigger] ids@[j]) < flags@.len(),
            forall|j: int| 0 <= j < i as int ==> flags@[#[trigger] ids@[j] as int],
        decreases ids@.len() - i,
    {
        if !flags[ids[i]] {
            return false;
        }
        i = i + 1;
    }
    true
}

/// The priority a checkbox state stands for: checked downloads at the
/// default priority, unchecked skips the file.
pub open spec fn spec_toggle_priority(checked: bool) -> TorrentFilePriority {
    if checked {
        TorrentFilePriority::Default
    } else {
        TorrentFilePriority::Skip
    }
}

/// The command one toggle of a file's own checkbox sends.
pub fn file_toggle_message(torrent_index: usize, path_id: usize, checked: bool) -> (r: Message)
    ensures
        r == Message::UpdateFilePriority(torrent_index, path_id, spec_toggle_priority(checked)),
{
    let priority = if checked {
        TorrentFilePriority::Default
    } else {
        TorrentFilePriority::Skip
    };
    Message::UpdateFilePriority(torrent_index, path_id, priority)
}

/// The commands one toggle of a directory's aggregate checkbox fans
/// out to: one priority change per descendant file id, in their order.
pub fn dir_toggle_messages(torrent_index: usize, ids: &Vec<usize>, checked: bool) -> (r: Vec<
    Message,
>)
    ensures
        r@.len() == ids@.len(),
        forall|j: int|
            0 <= j < ids@.len() ==> r@[j] == Message::UpdateFilePriority(
                torrent_index,
                ids@[j],
                spec_toggle_priority(checked),
            ),
{
    let mut msgs: Vec<Message> = Vec::new();
    let mut i: usize = 0;
    while i < ids.len()
        invariant
            i <= ids@.len(),
            msgs@.len() == i,
            forall|j: int|
                0 <= j < i as int ==> msgs@[j] == Message::UpdateFilePriority(
                    torrent_index,
                    ids@[j],
                    spec_toggle_priority(checked),
                ),
        decreases ids@.len() - i,
    {
        msgs.push(file_toggle_message(torrent_index, ids[i], checked));
        i = i + 1;
    }
    msgs
}

/// Among `off` and `on`, position `j` carries the priority changes for
/// file `x` of torrent `ti`: `Skip` in `off`, `Default` in `on`.
pub open spec fn sends_for(off: Seq<Message>, on: Seq<Message>, ti: usize, x: usize) -> bool {
    exists|j: int|
        0 <= j < off.len() && #[trigger] off[j] == Message::UpdateFilePriority(
            ti,
            x,
            TorrentFilePriority::Skip,
        ) && j < on.len() && on[j] == Message::UpdateFilePriority(
            ti,
            x,
            TorrentFilePriority::Default,
        )
}

/// Toggling a directory's checkbox off sends one `Skip` priority
/// change for every file id in its descendant set, and toggling it
/// back on sends `Default` for the same set — each exactly once, and
/// nothing else: with `ids` collected from the directory's subtree and
/// `off` and `on` the fanned-out command lists, every descendant id
/// appears at one shared position of both lists, no command aims
/// anywhere else, and no id is sent twice.
pub proof fn lemma_dir_toggle_fanout(
    t: FSTree,
    node: int,
    ids: Seq<usize>,
    off: Seq<Message>,
    on: Seq<Message>,
    ti: usize,
)
    requires
        ids.no_duplicates(),
        forall|x: usize| #[trigger] ids.contains(x) <==> t.subtree_ids(node).contains(x),
        off.len() == ids.len(),
        forall|j: int|
            0 <= j < ids.len() ==> #[trigger] off[j] == Message::UpdateFilePriority(
                ti,
                ids[j],
                TorrentFilePriority::Skip,
            ),
        on.len() == ids.len(),
        forall|j: int|
            0 <= j < ids.len() ==> #[trigger] on[j] == Message::UpdateFilePriority(
                ti,
                ids[j],
                TorrentFilePriority::Default,
            ),
    ensures
        forall|x: usize| t.subtree_ids(node).contains(x) ==> #[trigger] sends_for(off, on, ti, x),
        forall|j: int| 0 <= j < off.len() ==> t.subtree_ids(node).contains(ids[j]),
        forall|j1: int, j2: int|
            0 <= j1 < off.len() && 0 <= j2 < off.len() && #[trigger] off[j1] == #[trigger] off[j2]
                ==> j1 == j2,
{
    assert forall|x: usize| t.subtree_ids(node).contains(x) implies #[trigger] sends_for(
        off,
        on,
        ti,
        x,
    ) by {
        assert(ids.contains(x));
        let j = choose|j: int| 0 <= j < ids.len() && ids[j] == x;
        assert(off[j] == Message::UpdateFilePriority(ti, x, TorrentFilePriority::Skip));
        assert(on[j] == Message::UpdateFilePriority(ti, x, TorrentFilePriority::Default));
    }
    assert forall|j: int| 0 <= j < off.len() implies t.subtree_ids(node).contains(ids[j]) by {
        assert(ids.contains(ids[j]));
    }
}

/// Characters the standard library counts as whitespace when trimming.
pub open spec fn is_space_char(c: char) -> bool {
    c == ' ' || c == '\t' || c == '\n' || c == '\u{b}' || c == '\u{c}' || c == '\r' || c
        == '\u{85}' || c == '\u{a0}' || c == '\u{1680}' || c == '\u{2000}' || c == '\u{2001}'
        || c == '\u{2002}' || c == '\u{2003}' || c == '\u{2004}' || c == '\u{2005}' || c
        == '\u{2006}' || c == '\u{2007}' || c == '\u{2008}' || c == '\u{2009}' || c
        == '\u{200a}' || c == '\u{2028}' || c == '\u{2029}' || c == '\u{202f}' || c
        == '\u{205f}' || c == '\u{3000}'
}

fn is_space(c: char) -> (r: bool)
    ensures
        r == is_space_char(c),
{
    c == ' ' || c == '\t' || c == '\n' || c == '\u{b}' || c == '\u{c}' || c == '\r' || c
        == '\u{85}' || c == '\u{a0}' || c == '\u{1680}' || c == '\u{2000}' || c == '\u{2001}'
        || c == '\u{2002}' || c == '\u{2003}' || c == '\u{2004}' || c == '\u{2005}' || c
        == '\u{2006}' || c == '\u{2007}' || c == '\u{2008}' || c == '\u{2009}' || c
        == '\u{200a}' || c == '\u{2028}' || c == '\u{2029}' || c == '\u{202f}' || c
        == '\u{205f}' || c == '\u{3000}'
}

/// The text with leading whitespace dropped.
pub open spec fn spec_trim_front(s: Seq<char>) -> Seq<char>
    decreases s.len(),
{
    if s.len() > 0 && is_space_char(s[0]) {
        spec_trim_front(s.subrange(1, s.len() as int))
    } else {
        s
    }
}

/// The text with trailing whitespace dropped.
pub open spec fn spec_trim_back(s: Seq<char>) -> Seq<char>
    decreases s.len(),
{
    if s.len() > 0 && is_space_char(s.last()) {
        spec_trim_back(s.subrange(0, s.len() - 1))
    } else {
        s
    }
}

/// The text with whitespace dropped from both ends.
pub open spec fn spec_trim(s: Seq<char>) -> Seq<char> {
    spec_trim_back(spec_trim_front(s))
}

/// Drop whitespace from both ends of the text.
pub fn trim_text(s: &str) -> (r: String)
    ensures
        r@ == spec_trim(s@),
{
    let n = s.unicode_len();
    let mut i: usize = 0;
    proof {
        assert(s@.subrange(0, n as int) =~= s@);
    }
    while i < n && is_space(s.get_char(i))
        invariant
            i <= n,
            n == s@.len(),
            spec_trim_front(s@) == spec_trim_front(s@.subrange(i as int, n as int)),
        decreases n - i,
    {
        proof {
            let rest = s@.subrange(i as int, n as int);
            assert(rest[0] == s@[i as int]);
            assert(rest.subrange(1, rest.len() as int) =~= s@.subrange(i + 1, n as int));
        }
        i = i + 1;
    }
    proof {
        let rest = s@.subrange(i as int, n as int);
        if rest.len() > 0 {
            assert(rest[0] == s@[i as int]);
        }
        assert(spec_trim_front(s@) == rest);
    }
    let mut j: usize = n;
    while j > i && is_space(s.get_char(j - 1))
        invariant
            i <= j <= n,
            n == s@.len(),
            spec_trim_front(s@) == s@.subrange(i as int, n as int),
            i < n ==> !is_space_char(s@[i as int]),
            spec_trim_back(s@.subrange(i as int, n as int)) == spec_trim_back(
                s@.subrange(i as int, j as int),
            ),
        decreases j,
    {
        proof {
            let part = s@.subrange(i as int, j as int);
            assert(part.last() == s@[j - 1]);
            assert(part.subrange(0, part.len() - 1) =~= s@.subrange(i as int, j - 1));
        }
        j = j - 1;
    }
    proof {
        let part = s@.subrange(i as int, j as int);
        if part.len() > 0 {
            assert(part.last() == s@[j - 1]);
            assert(!is_space_char(part.last()));
        }
        assert(spec_trim_back(part) == part);
    }
    s.substring_char(i, j).to_owned()
}

/// Does the path name a torrent file: it ends in the `.torrent`
/// extension, with a file name in front of it.
pub open spec fn spec_has_torrent_ext(s: Seq<char>) -> bool {
    &&& s.len() >= 9
    &&& s.subrange(s.len() - 8, s.len() as int) == ".torrent"@
    &&& s[s.len() - 9] != '/'
}

pub fn has_torrent_extension(s: &str) -> (r: bool)
    ensures
        r == spec_has_torrent_ext(s@),
{
    proof {
        reveal_strlit(".torrent");
    }
    let n = s.unicode_len();
    if n < 9 {
        return false;
    }
    if s.get_char(n - 9) == '/' {
        return false;
    }
    let ext = ".torrent";
    let mut k: usize = 0;
    while k < 8
        invariant
            8 < n == s@.len(),
            ext@ == ".torrent"@,
            ext@.len() == 8,
            k <= 8,
            forall|m: int| 0 <= m < k as int ==> s@[n - 8 + m] == ".torrent"@[m],
        decreases 8 - k,
    {
        if s.get_char(n - 8 + k) != ext.get_char(k) {
            return false;
        }
        k = k + 1;
    }
    proof {
        assert(s@.subrange(n - 8, n as int) =~= ".torrent"@);
    }
    true
}

/// What a file dropped onto the window becomes: its add command,
/// unconditionally — the engine judges the file itself.
pub fn dropped_file_message(path: String) -> (r: Message)
    ensures
        r == Message::AddTorrent(path, AddTorrentKind::File),
{
    Message::AddTorrent(path, AddTorrentKind::File)
}

/// What a file chosen in the picker becomes: the add command for a
/// torrent file, a named failure for anything else.
pub fn file_add_message(path: String) -> (r: Result<Message, String>)
    ensures
        spec_has_torrent_ext(path@) ==> (r matches Ok(m) && m == Message::AddTorrent(
            path,
            AddTorrentKind::File,
        )),
        !spec_has_torrent_ext(path@) ==> (r matches Err(e) && e@
            == "Only .torrent files are accepted."@),
{
    if has_torrent_extension(path.as_str()) {
        Ok(Message::AddTorrent(path, AddTorrentKind::File))
    } else {
        Err("Only .torrent files are accepted.".to_owned())
    }
}

/// What pasted text becomes: an add command for the magnet URI, with
/// the surrounding whitespace trimmed away.
pub fn magnet_paste_message(text: &str) -> (r: Message)
    ensures
        r matches Message::AddTorrent(u, k) && u@ == spec_trim(text@) && k
            == AddTorrentKind::MagnetUrl,
{
    Message::AddTorrent(trim_text(text), AddTorrentKind::MagnetUrl)
}

} // verus!
