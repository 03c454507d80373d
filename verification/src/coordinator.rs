//! The coordinator actor: the single consumer of the command bus, the
//! only caller of the torrent engine, and the only writer of the
//! shared snapshot of torrent state.
//!
//! The engine itself is a foreign collaborator behind a narrow call
//! boundary, so the coordinator is a pure state machine: `step` takes
//! one command and the current time and says which engine call to run
//! (a [`Directive`]) and what to enqueue next, and the `apply_*`
//! methods take the plain values an engine call produced and fold them
//! into the snapshot. The loop that owns the engine runs around it.

use vstd::prelude::*;
use crate::message::{AddTorrentKind, Message};
use crate::torrent::{
    torrent_from_info, torrent_matches_info, File, Peer, Torrent, TorrentFilePriority,
    TorrentInfo, TorrentState,
};
use crate::torrent::{priority_from_wire, spec_priority_from_wire};

verus! {

/// How long a refresh result stays fresh: a plain `Refresh` within
/// this window of the last cycle is dropped.
pub const REFRESH_INTERVAL_MS: u64 = 900;

/// What the coordinator asks its caller to run against the engine in
/// response to one command. `Idle` is no work at all; every other
/// directive is one engine interaction (or, for `OpenDirectory`, one
/// platform call that never touches the engine).
#[derive(PartialEq, Clone, Debug)]
pub enum Directive {
    /// Nothing to run.
    Idle,
    /// One refresh cycle: pump the engine's event queue, read its
    /// torrent count and every record, and hand them to
    /// `apply_refresh`.
    RunRefresh,
    /// Add a torrent from the source string, then report the outcome.
    CallAdd(String, AddTorrentKind),
    /// Remove the torrent at the index.
    CallRemove(usize),
    /// Pause the torrent at the index.
    CallPause(usize),
    /// Resume the torrent at the index.
    CallResume(usize),
    /// Toggle sequential streaming of the torrent at the index.
    CallToggleStream(usize),
    /// Change one file's priority: torrent index, file index, priority.
    CallSetFilePriority(usize, usize, TorrentFilePriority),
    /// Read the peer list at the index and hand it to `apply_peers`.
    CallFetchPeers(usize),
    /// Read the file list at the index and hand it to `apply_files`.
    CallFetchFiles(usize),
    /// Open the directory in the platform's file browser.
    OpenDirectory(String),
    /// Shut the engine down; the last engine call ever made.
    CallShutdown,
}

/// The coordinator's state: the snapshot list every reader sees, the
/// refresh throttle, the detail-pane selection, and the shutdown
/// flags.
pub struct Coordinator {
    /// The snapshot list: a torrent's index here is its identity.
    pub torrents: Vec<Torrent>,
    /// Bumped on every snapshot write.
    pub version: u64,
    /// When the last refresh cycle was issued, on the caller's clock.
    pub last_refresh_ms: u64,
    /// Whether any refresh cycle was issued yet.
    pub has_refreshed: bool,
    /// The torrent selected in the detail pane, one-based; `None` is
    /// closed.
    pub sel_torrent: Option<usize>,
    /// A `Stop` was processed: every later command is ignored.
    pub stopped: bool,
    /// Set together with `stopped`, after the shutdown directive is
    /// issued: the owner of the shared exit flag may publish it.
    pub safe_to_exit: bool,
}

/// Is a plain `Refresh` due at `now_ms`: always before the first
/// cycle, and after the refresh window has passed since the last one.
pub open spec fn refresh_due(s: Coordinator, now_ms: u64) -> bool {
    !s.has_refreshed || now_ms >= s.last_refresh_ms + REFRESH_INTERVAL_MS
}

/// The state after one command.
pub open spec fn step_state(s: Coordinator, msg: Message, now_ms: u64) -> Coordinator {
    if s.stopped {
        s
    } else {
        match msg {
            Message::Stop => Coordinator { stopped: true, safe_to_exit: true, ..s },
            Message::Refresh => if refresh_due(s, now_ms) {
                Coordinator { last_refresh_ms: now_ms, has_refreshed: true, ..s }
            } else {
                s
            },
            Message::ForcedRefresh => Coordinator {
                last_refresh_ms: now_ms,
                has_refreshed: true,
                ..s
            },
            Message::UpdateSelTorrent(sel) => Coordinator { sel_torrent: sel, ..s },
            _ => s,
        }
    }
}

/// The engine work one command asks for. A command aimed at an index
/// the snapshot no longer has is a silent no-op.
pub open spec fn step_directive(s: Coordinator, msg: Message, now_ms: u64) -> Directive {
    if s.stopped {
        Directive::Idle
    } else {
        match msg {
            Message::Stop => Directive::CallShutdown,
            Message::Refresh => if refresh_due(s, now_ms) {
                Directive::RunRefresh
            } else {
                Directive::Idle
            },
            Message::ForcedRefresh => Directive::RunRefresh,
            Message::AddTorrent(source, kind) => Directive::CallAdd(source, kind),
            Message::RemoveTorrent(i) => if i < s.torrents@.len() {
                Directive::CallRemove(i)
            } else {
                Directive::Idle
            },
            Message::UpdateState(state, i) => if i < s.torrents@.len() {
                if state == TorrentState::Paused {
                    Directive::CallResume(i)
                } else {
                    Directive::CallPause(i)
                }
            } else {
                Directive::Idle
            },
            Message::ToggleStreamMode(i) => if i < s.torrents@.len() {
                Directive::CallToggleStream(i)
            } else {
                Directive::Idle
            },
            Message::UpdateFilePriority(i, f_index, priority) => if i < s.torrents@.len() {
                Directive::CallSetFilePriority(i, f_index, priority)
            } else {
                Directive::Idle
            },
            Message::FetchPeers(i) => if i < s.torrents@.len() {
                Directive::CallFetchPeers(i)
            } else {
                Directive::Idle
            },
            Message::FetchFiles(i) => if i < s.torrents@.len() {
                Directive::CallFetchFiles(i)
            } else {
                Directive::Idle
            },
            Message::OpenDir(dir) => Directive::OpenDirectory(dir),
            Message::UpdateSelTorrent(_) => Directive::Idle,
        }
    }
}

/// What one command enqueues behind itself: every mutating engine call
/// that was actually issued is followed by a forced refresh, since its
/// effect shows up only in the engine's next report.
pub open spec fn step_followup(s: Coordinator, msg: Message, now_ms: u64) -> Option<Message> {
    if s.stopped {
        None
    } else {
        match msg {
            Message::AddTorrent(_, _) => Some(Message::ForcedRefresh),
            Message::RemoveTorrent(i) => if i < s.torrents@.len() {
                Some(Message::ForcedRefresh)
            } else {
                None
            },
            Message::UpdateState(_, i) => if i < s.torrents@.len() {
                Some(Message::ForcedRefresh)
            } else {
                None
            },
            Message::ToggleStreamMode(i) => if i < s.torrents@.len() {
                Some(Message::ForcedRefresh)
            } else {
                None
            },
            Message::UpdateFilePriority(i, _, _) => if i < s.torrents@.len() {
                Some(Message::ForcedRefresh)
            } else {
                None
            },
            _ => None,
        }
    }
}

impl Coordinator {
    /// The coordinator before anything happened: an empty snapshot, no
    /// refresh issued yet, nothing selected, not stopped.
    pub fn new() -> (s: Coordinator)
        ensures
            s.torrents@ == Seq::<Torrent>::empty(),
            s.version == 0,
            s.last_refresh_ms == 0,
            s.has_refreshed == false,
            s.sel_torrent is None,
            s.stopped == false,
            s.safe_to_exit == false,
    {
        Coordinator {
            torrents: Vec::new(),
            version: 0,
            last_refresh_ms: 0,
            has_refreshed: false,
            sel_torrent: None,
            stopped: false,
            safe_to_exit: false,
        }
    }

    fn bump_version(&mut self)
        ensures
            final(self).version != old(self).version,
            *final(self) == (Coordinator { version: final(self).version, ..*old(self) }),
    {
        if self.version == u64::MAX {
            self.version = 0;
        } else {
            self.version = self.version + 1;
        }
    }

    /// Process one command: update the coordinator's own state and say
    /// what to run against the engine and what to enqueue next.
    /// Commands after a `Stop` are ignored entirely.
    pub fn step(&mut self, msg: Message, now_ms: u64) -> (r: (Directive, Option<Message>))
        ensures
            *final(self) == step_state(*old(self), msg, now_ms),
            r.0 == step_directive(*old(self), msg, now_ms),
            r.1 == step_followup(*old(self), msg, now_ms),
    {
        if self.stopped {
            return (Directive::Idle, None);
        }
        match msg {
            Message::Stop => {
                self.stopped = true;
                self.safe_to_exit = true;
                (Directive::CallShutdown, None)
            },
            Message::Refresh => {
                let due = !self.has_refreshed || (now_ms >= self.last_refresh_ms && now_ms
                    - self.last_refresh_ms >= REFRESH_INTERVAL_MS);
                if due {
                    self.last_refresh_ms = now_ms;
                    self.has_refreshed = true;
                    (Directive::RunRefresh, None)
                } else {
                    (Directive::Idle, None)
                }
            },
            Message::ForcedRefresh => {
                self.last_refresh_ms = now_ms;
                self.has_refreshed = true;
                (Directive::RunRefresh, None)
            },
            Message::AddTorrent(source, kind) => (
                Directive::CallAdd(source, kind),
                Some(Message::ForcedRefresh),
            ),
            Message::RemoveTorrent(i) => {
                if i < self.torrents.len() {
                    (Directive::CallRemove(i), Some(Message::ForcedRefresh))
                } else {
                    (Directive::Idle, None)
                }
            },
            Message::UpdateState(state, i) => {
                if i < self.torrents.len() {
                    let call = if state == TorrentState::Paused {
                        Directive::CallResume(i)
                    } else {
                        Directive::CallPause(i)
                    };
                    (call, Some(Message::ForcedRefresh))
                } else {
                    (Directive::Idle, None)
                }
            },
            Message::ToggleStreamMode(i) => {
                if i < self.torrents.len() {
                    (Directive::CallToggleStream(i), Some(Message::ForcedRefresh))
                } else {
                    (Directive::Idle, None)
                }
            },
            Message::UpdateFilePriority(i, f_index, priority) => {
                if i < self.torrents.len() {
                    (
                        Directive::CallSetFilePriority(i, f_index, priority),
                        Some(Message::ForcedRefresh),
                    )
                } else {
                    (Directive::Idle, None)
                }
            },
            Message::FetchPeers(i) => {
                if i < self.torrents.len() {
                    (Directive::CallFetchPeers(i), None)
                } else {
                    (Directive::Idle, None)
                }
            },
            Message::FetchFiles(i) => {
                if i < self.torrents.len() {
                    (Directive::CallFetchFiles(i), None)
                } else {
                    (Directive::Idle, None)
                }
            },
            Message::OpenDir(dir) => (Directive::OpenDirectory(dir), None),
            Message::UpdateSelTorrent(sel) => {
                self.sel_torrent = sel;
                (Directive::Idle, None)
            },
        }
    }
}

/// How a refresh rewrites the snapshot: the old list is replaced
/// wholesale by one fresh record per engine report, in order; stale
/// trailing entries are gone, and nothing else of the coordinator
/// changes but the version.
pub open spec fn refresh_result(pre: Coordinator, post: Coordinator, infos: Seq<TorrentInfo>) -> bool {
    &&& post.torrents@.len() == infos.len()
    &&& forall|j: int|
        0 <= j < infos.len() ==> torrent_matches_info(#[trigger] post.torrents@[j], infos[j])
    &&& post.version != pre.version
    &&& post.last_refresh_ms == pre.last_refresh_ms
    &&& post.has_refreshed == pre.has_refreshed
    &&& post.sel_torrent == pre.sel_torrent
    &&& post.stopped == pre.stopped
    &&& post.safe_to_exit == pre.safe_to_exit
}

impl Coordinator {
    /// Fold the records of one refresh cycle into the snapshot,
    /// replacing it wholesale.
    pub fn apply_refresh(&mut self, infos: &Vec<TorrentInfo>)
        ensures
            refresh_result(*old(self), *final(self), infos@),
    {
        let mut fresh: Vec<Torrent> = Vec::new();
        let mut i: usize = 0;
        while i < infos.len()
            invariant
                i <= infos@.len(),
                fresh@.len() == i,
                forall|j: int|
                    0 <= j < i as int ==> torrent_matches_info(#[trigger] fresh@[j], infos@[j]),
            decreases infos@.len() - i,
        {
            fresh.push(torrent_from_info(&infos[i]));
            i = i + 1;
        }
        self.torrents = fresh;
        self.bump_version();
    }

    /// Replace one torrent's peer list with a fetched one; an index
    /// the snapshot no longer has is a silent no-op.
    pub fn apply_peers(&mut self, index: usize, peers: Vec<Peer>)
        ensures
            index < old(self).torrents@.len() ==> {
                &&& final(self).torrents@.len() == old(self).torrents@.len()
                &&& final(self).torrents@[index as int] == (Torrent {
                    peers,
                    ..old(self).torrents@[index as int]
                })
                &&& forall|j: int|
                    0 <= j < old(self).torrents@.len() && j != index as int
                        ==> final(self).torrents@[j] == old(self).torrents@[j]
                &&& final(self).version != old(self).version
                &&& final(self).stopped == old(self).stopped
                &&& final(self).safe_to_exit == old(self).safe_to_exit
                &&& final(self).sel_torrent == old(self).sel_torrent
                &&& final(self).last_refresh_ms == old(self).last_refresh_ms
                &&& final(self).has_refreshed == old(self).has_refreshed
            },
            index >= old(self).torrents@.len() ==> *final(self) == *old(self),
    {
        if index < self.torrents.len() {
            self.torrents[index].peers = peers;
            self.bump_version();
        }
    }

    /// Replace one torrent's file list with a fetched one, decoding
    /// the wire priorities; an index the snapshot no longer has is a
    /// silent no-op.
    pub fn apply_files(&mut self, index: usize, files: &Vec<(String, u8)>)
        ensures
            index < old(self).torrents@.len() ==> {
                &&& final(self).torrents@.len() == old(self).torrents@.len()
                &&& final(self).torrents@[index as int].files@.len() == files@.len()
                &&& forall|j: int|
                    0 <= j < files@.len() ==> {
                        &&& (#[trigger] final(self).torrents@[index as int].files@[j]).path@
                            == files@[j].0@
                        &&& final(self).torrents@[index as int].files@[j].priority
                            == spec_priority_from_wire(files@[j].1)
                    }
                &&& final(self).torrents@[index as int] == (Torrent {
                    files: final(self).torrents@[index as int].files,
                    ..old(self).torrents@[index as int]
                })
                &&& forall|j: int|
                    0 <= j < old(self).torrents@.len() && j != index as int
                        ==> final(self).torrents@[j] == old(self).torrents@[j]
                &&& final(self).version != old(self).version
                &&& final(self).stopped == old(self).stopped
                &&& final(self).safe_to_exit == old(self).safe_to_exit
                &&& final(self).sel_torrent == old(self).sel_torrent
                &&& final(self).last_refresh_ms == old(self).last_refresh_ms
                &&& final(self).has_refreshed == old(self).has_refreshed
            },
            index >= old(self).torrents@.len() ==> *final(self) == *old(self),
    {
        if index < self.torrents.len() {
            let mut decoded: Vec<File> = Vec::new();
            let mut k: usize = 0;
            while k < files.len()
                invariant
                    k <= files@.len(),
                    decoded@.len() == k,
                    forall|j: int|
                        0 <= j < k as int ==> {
                            &&& (#[trigger] decoded@[j]).path@ == files@[j].0@
                            &&& decoded@[j].priority == spec_priority_from_wire(files@[j].1)
                        },
                decreases files@.len() - k,
            {
                let path = files[k].0.clone();
                let priority = priority_from_wire(files[k].1);
                decoded.push(File { path, priority });
                k = k + 1;
            }
            self.torrents[index].files = decoded;
            self.bump_version();
        }
    }
}

/// Kind of a notice shown to the user.
#[derive(PartialEq, Eq, Structural, Clone, Copy, Debug)]
pub enum ToastKind {
    Info,
    Success,
    Error,
}

/// The engine calls whose boolean outcome the user is told about; a
/// `false` from the engine is a named failure, never an abort.
#[derive(PartialEq, Eq, Structural, Clone, Copy, Debug)]
pub enum EngineOp {
    Add,
    Remove,
    ToggleStream,
    SetFilePriority,
    SetState,
}

/// The notice owed for one mutating call's outcome: adding and
/// removing report success too, the others speak up only on failure.
pub open spec fn spec_outcome_notice(op: EngineOp, ok: bool) -> Option<(ToastKind, Seq<char>)> {
    match op {
        EngineOp::Add => if ok {
            Some((ToastKind::Success, "Added new torrent."@))
        } else {
            Some((ToastKind::Error, "Failed to add new torrent."@))
        },
        EngineOp::Remove => if ok {
            Some((ToastKind::Success, "Removed torrent."@))
        } else {
            Some((ToastKind::Error, "Failed to remove torrent."@))
        },
        EngineOp::ToggleStream => if ok {
            None
        } else {
            Some((ToastKind::Error, "Failed to toggle stream mode."@))
        },
        EngineOp::SetFilePriority => if ok {
            None
        } else {
            Some((ToastKind::Error, "Failed to change priority."@))
        },
        EngineOp::SetState => if ok {
            None
        } else {
            Some((ToastKind::Error, "Failed to pause/resume torrent state."@))
        },
    }
}

/// The notice to show for one mutating call's outcome.
pub fn outcome_notice(op: EngineOp, ok: bool) -> (r: Option<(ToastKind, String)>)
    ensures
        r is Some <==> spec_outcome_notice(op, ok) is Some,
        r matches Some(t) ==> spec_outcome_notice(op, ok) matches Some(st) && t.0 == st.0 && t.1@
            == st.1,
{
    match op {
        EngineOp::Add => if ok {
            Some((ToastKind::Success, "Added new torrent.".to_owned()))
        } else {
            Some((ToastKind::Error, "Failed to add new torrent.".to_owned()))
        },
        EngineOp::Remove => if ok {
            Some((ToastKind::Success, "Removed torrent.".to_owned()))
        } else {
            Some((ToastKind::Error, "Failed to remove torrent.".to_owned()))
        },
        EngineOp::ToggleStream => if ok {
            None
        } else {
            Some((ToastKind::Error, "Failed to toggle stream mode.".to_owned()))
        },
        EngineOp::SetFilePriority => if ok {
            None
        } else {
            Some((ToastKind::Error, "Failed to change priority.".to_owned()))
        },
        EngineOp::SetState => if ok {
            None
        } else {
            Some((ToastKind::Error, "Failed to pause/resume torrent state.".to_owned()))
        },
    }
}

/// Two `Refresh` commands within the refresh window run exactly one
/// cycle: when the first one ran a cycle, the second is dropped.
pub proof fn lemma_refresh_coalesced(s: Coordinator, t1: u64, t2: u64)
    requires
        step_directive(s, Message::Refresh, t1) == Directive::RunRefresh,
        t1 <= t2 < t1 + REFRESH_INTERVAL_MS,
    ensures
        step_directive(step_state(s, Message::Refresh, t1), Message::Refresh, t2)
            == Directive::Idle,
{
}

/// A `ForcedRefresh` runs a cycle regardless of timing.
pub proof fn lemma_forced_refresh_always(s: Coordinator, t: u64)
    requires
        !s.stopped,
    ensures
        step_directive(s, Message::ForcedRefresh, t) == Directive::RunRefresh,
{
}

/// Once stopped, the coordinator is inert: no command changes its
/// state, runs engine work, or enqueues anything.
pub proof fn lemma_stopped_inert(s: Coordinator, msg: Message, now_ms: u64)
    requires
        s.stopped,
    ensures
        step_state(s, msg, now_ms) == s,
        step_directive(s, msg, now_ms) == Directive::Idle,
        step_followup(s, msg, now_ms) is None,
{
}

/// The state after a sequence of commands, each with its arrival time.
pub open spec fn run_state(s: Coordinator, cmds: Seq<(Message, u64)>) -> Coordinator
    decreases cmds.len(),
{
    if cmds.len() == 0 {
        s
    } else {
        run_state(step_state(s, cmds[0].0, cmds[0].1), cmds.subrange(1, cmds.len() as int))
    }
}

/// A run over two back-to-back command sequences is the run over the
/// first followed by the run over the second.
proof fn lemma_run_split(s: Coordinator, a: Seq<(Message, u64)>, b: Seq<(Message, u64)>)
    ensures
        run_state(s, a + b) == run_state(run_state(s, a), b),
    decreases a.len(),
{
    if a.len() == 0 {
        assert(a + b =~= b);
    } else {
        assert((a + b)[0] == a[0]);
        assert((a + b).subrange(1, (a + b).len() as int) =~= a.subrange(1, a.len() as int) + b);
        lemma_run_split(step_state(s, a[0].0, a[0].1), a.subrange(1, a.len() as int), b);
    }
}

/// A stopped coordinator stays exactly as it is through any run.
proof fn lemma_run_stopped(s: Coordinator, cmds: Seq<(Message, u64)>)
    requires
        s.stopped,
    ensures
        run_state(s, cmds) == s,
    decreases cmds.len(),
{
    if cmds.len() > 0 {
        lemma_stopped_inert(s, cmds[0].0, cmds[0].1);
        lemma_run_stopped(s, cmds.subrange(1, cmds.len() as int));
    }
}

/// A run without a `Stop` never stops and never raises the exit flag.
proof fn lemma_run_no_stop(s: Coordinator, cmds: Seq<(Message, u64)>)
    requires
        !s.stopped,
        !s.safe_to_exit,
        forall|i: int| 0 <= i < cmds.len() ==> !((#[trigger] cmds[i]).0 is Stop),
    ensures
        !run_state(s, cmds).stopped,
        !run_state(s, cmds).safe_to_exit,
    decreases cmds.len(),
{
    if cmds.len() > 0 {
        let s1 = step_state(s, cmds[0].0, cmds[0].1);
        assert(!s1.stopped && !s1.safe_to_exit);
        let tail = cmds.subrange(1, cmds.len() as int);
        assert(forall|i: int| 0 <= i < tail.len() ==> (#[trigger] tail[i]) == cmds[i + 1]);
        lemma_run_no_stop(s1, tail);
    }
}

/// `Stop` is terminal and raises the exit flag exactly once: with the
/// first `Stop` at position `k` of a run, the commands after it change
/// nothing — the run ends in the state reached right after the `Stop`
/// — the flag is set there, and was never set before it.
pub proof fn lemma_stop_terminal(s: Coordinator, cmds: Seq<(Message, u64)>, k: int)
    requires
        !s.stopped,
        !s.safe_to_exit,
        0 <= k < cmds.len(),
        cmds[k].0 is Stop,
        forall|i: int| 0 <= i < k ==> !((#[trigger] cmds[i]).0 is Stop),
    ensures
        run_state(s, cmds) == run_state(s, cmds.take(k + 1)),
        run_state(s, cmds).stopped,
        run_state(s, cmds).safe_to_exit,
        !run_state(s, cmds.take(k)).stopped,
        !run_state(s, cmds.take(k)).safe_to_exit,
{
    let head = cmds.take(k);
    assert(forall|i: int| 0 <= i < head.len() ==> (#[trigger] head[i]) == cmds[i]);
    lemma_run_no_stop(s, head);
    let before = run_state(s, head);

    // the step at the Stop itself
    assert(cmds.take(k + 1) =~= head + seq![cmds[k]]);
    lemma_run_split(s, head, seq![cmds[k]]);
    let stop_cmd = seq![cmds[k]];
    assert(run_state(before, stop_cmd) == step_state(before, cmds[k].0, cmds[k].1)) by {
        let mid = step_state(before, cmds[k].0, cmds[k].1);
        assert(stop_cmd.len() == 1);
        assert(stop_cmd[0] == cmds[k]);
        assert(stop_cmd.subrange(1, 1) =~= Seq::<(Message, u64)>::empty());
        assert(run_state(mid, Seq::<(Message, u64)>::empty()) == mid);
        assert(run_state(before, stop_cmd) == run_state(mid, stop_cmd.subrange(1, 1)));
    }
    let after = run_state(s, cmds.take(k + 1));
    assert(after.stopped && after.safe_to_exit);

    // everything after the Stop is dead
    assert(cmds =~= cmds.take(k + 1) + cmds.subrange(k + 1, cmds.len() as int));
    lemma_run_split(s, cmds.take(k + 1), cmds.subrange(k + 1, cmds.len() as int));
    lemma_run_stopped(after, cmds.subrange(k + 1, cmds.len() as int));
}

/// Removing a torrent and letting the forced refresh land leaves the
/// snapshot exactly as long as the engine's report, every record
/// rebuilt fresh — in particular the entry at the removed torrent's
/// old slot carries no peer or file data from before.
pub proof fn lemma_remove_then_refresh(
    s: Coordinator,
    s2: Coordinator,
    i: usize,
    now_ms: u64,
    infos: Seq<TorrentInfo>,
)
    requires
        !s.stopped,
        i < s.torrents@.len(),
        refresh_result(step_state(s, Message::RemoveTorrent(i), now_ms), s2, infos),
    ensures
        step_directive(s, Message::RemoveTorrent(i), now_ms) == Directive::CallRemove(i),
        step_followup(s, Message::RemoveTorrent(i), now_ms) == Some(Message::ForcedRefresh),
        s2.torrents@.len() == infos.len(),
        i < infos.len() ==> torrent_matches_info(s2.torrents@[i as int], infos[i as int]),
        i < infos.len() ==> s2.torrents@[i as int].peers@ == Seq::<Peer>::empty(),
        i < infos.len() ==> s2.torrents@[i as int].files@.len() == infos[i as int].files@.len(),
{
}

} // verus!
