//! The walk over the remote tree, as a machine that is told what the outside
//! world answered and says what to ask next. It visits the remote directories
//! depth first, in the order listed, and gathers the files to copy.

use vstd::prelude::*;
use crate::entry::{entries_of, stale, verdict, EntryView, RemoteEntry, Verdict};
use crate::paths::joined;

verus! {

/// One file to copy: where it is read and where it is written.
#[derive(Clone, Debug, PartialEq, Eq)]
pub struct TransferPair {
    pub remote_path: String,
    pub local_path: String,
}

/// A transfer pair as plain values.
pub ghost struct PairView {
    pub remote: Seq<char>,
    pub local: Seq<char>,
}

impl View for TransferPair {
    type V = PairView;

    open spec fn view(&self) -> PairView {
        PairView { remote: self.remote_path@, local: self.local_path@ }
    }
}

/// The pairs of a work list as plain values, in order.
pub open spec fn pairs_of(v: Seq<TransferPair>) -> Seq<PairView> {
    Seq::new(v.len(), |i: int| v[i]@)
}

/// What a notice to the caller is about.
#[derive(Clone, Copy, Debug, PartialEq, Eq, Structural)]
pub enum ReportKind {
    /// A remote directory is about to be listed; the subject is its path.
    Scanning,
    /// An entry without a usable name was passed over; the subject is its
    /// path as listed.
    SkipUnnamed,
    /// An excluded entry was passed over; the subject is its name.
    SkipExcluded,
    /// A remote file is being checked; the subject is its path.
    Checking,
    /// A remote file of unknown length was passed over; the subject is its path.
    SkipSizeUnknown,
}

/// A notice to the caller. Notices only inform: nothing depends on them.
#[derive(Clone, Debug, PartialEq, Eq)]
pub struct Report {
    pub kind: ReportKind,
    pub subject: String,
}

/// A notice as plain values.
pub ghost struct ReportView {
    pub kind: ReportKind,
    pub subject: Seq<char>,
}

impl View for Report {
    type V = ReportView;

    open spec fn view(&self) -> ReportView {
        ReportView { kind: self.kind, subject: self.subject@ }
    }
}

/// The notices of a list as plain values, in order.
pub open spec fn reports_of(v: Seq<Report>) -> Seq<ReportView> {
    Seq::new(v.len(), |i: int| v[i]@)
}

/// What the outside world answered.
#[derive(Clone, Debug, PartialEq, Eq)]
pub enum Event {
    /// The local directory asked for exists now.
    DirReady,
    /// The remote directory asked for holds these entries.
    Listed(Vec<RemoteEntry>),
    /// The local file asked for has this length; `None` where there is no such file.
    Probed(Option<u64>),
    /// The request failed, for this reason.
    Failed(String),
}

/// An answer as plain values.
pub ghost enum EventView {
    DirReady,
    Listed(Seq<EntryView>),
    Probed(Option<u64>),
    Failed(Seq<char>),
}

impl View for Event {
    type V = EventView;

    open spec fn view(&self) -> EventView {
        match self {
            Event::DirReady => EventView::DirReady,
            Event::Listed(v) => EventView::Listed(entries_of(v@)),
            Event::Probed(n) => EventView::Probed(*n),
            Event::Failed(m) => EventView::Failed(m@),
        }
    }
}

/// What the walk waits for, or how it ended.
pub ghost enum PhaseView {
    /// The local directory is to be created, with all its parents.
    AwaitDir { local: Seq<char>, remote: Seq<char> },
    /// The remote directory is to be listed.
    AwaitListing { local: Seq<char>, remote: Seq<char> },
    /// The length of the local file is to be found out.
    AwaitProbe { remote: Seq<char>, local: Seq<char>, size: u64 },
    /// Every directory was walked.
    Done,
    /// A request failed: the walk is over and its work list is void.
    Failed(Seq<char>),
}

/// What the caller is to do next.
#[derive(Clone, Debug, PartialEq, Eq)]
pub enum Action {
    /// Create this local directory and its parents, then answer `DirReady`.
    EnsureDir(String),
    /// List this remote directory, then answer `Listed`.
    List(String),
    /// Find the length of this local file, then answer `Probed`.
    Probe(String),
    /// Nothing: the walk is complete.
    Finish,
    /// Nothing: the walk failed for this reason.
    Abort(String),
}

/// An instruction as plain values.
pub ghost enum ActionView {
    EnsureDir(Seq<char>),
    List(Seq<char>),
    Probe(Seq<char>),
    Finish,
    Abort(Seq<char>),
}

impl View for Action {
    type V = ActionView;

    open spec fn view(&self) -> ActionView {
        match self {
            Action::EnsureDir(p) => ActionView::EnsureDir(p@),
            Action::List(p) => ActionView::List(p@),
            Action::Probe(p) => ActionView::Probe(p@),
            Action::Finish => ActionView::Finish,
            Action::Abort(m) => ActionView::Abort(m@),
        }
    }
}

/// A directory whose listing is being gone through.
pub ghost struct FrameView {
    pub local: Seq<char>,
    pub remote: Seq<char>,
    pub entries: Seq<EntryView>,
    pub next: int,
}

/// The whole state of a walk as plain values.
pub ghost struct WalkState {
    pub exclude: Seq<Seq<char>>,
    /// The directories entered and not yet left, the innermost last.
    pub stack: Seq<FrameView>,
    /// The files found stale so far.
    pub work: Seq<PairView>,
    /// The notices given so far.
    pub reports: Seq<ReportView>,
    pub phase: PhaseView,
}

/// The state in which a walk begins: the local root is to be ensured first.
pub open spec fn initial(exclude: Seq<Seq<char>>, local_root: Seq<char>, remote_root: Seq<char>)
    -> WalkState {
    WalkState {
        exclude,
        stack: Seq::empty(),
        work: Seq::empty(),
        reports: Seq::empty(),
        phase: PhaseView::AwaitDir { local: local_root, remote: remote_root },
    }
}

/// The entries of a frame that are still to be looked at.
pub open spec fn remaining(f: FrameView) -> nat {
    if 0 <= f.next < f.entries.len() {
        (f.entries.len() - f.next) as nat
    } else {
        0
    }
}

/// The entries still to be looked at in the innermost directory.
pub open spec fn top_remaining(s: WalkState) -> nat {
    if s.stack.len() > 0 {
        remaining(s.stack.last())
    } else {
        0
    }
}

/// `s` with one more notice.
pub open spec fn noted(s: WalkState, kind: ReportKind, subject: Seq<char>) -> WalkState {
    WalkState { reports: s.reports.push(ReportView { kind, subject }), ..s }
}

/// `s` with the innermost directory moved on to its next entry.
pub open spec fn moved_on(s: WalkState) -> WalkState {
    let f = s.stack.last();
    WalkState { stack: s.stack.drop_last().push(FrameView { next: f.next + 1, ..f }), ..s }
}

/// Goes through the listings on the stack until something must be asked of the
/// outside world, or nothing is left. Entries without a name, excluded entries
/// and files of unknown length are passed over with a notice; a directory is
/// entered before the entries after it are looked at; a file with a length is
/// held against its local counterpart.
pub open spec fn advance(s: WalkState) -> WalkState
    decreases s.stack.len(), top_remaining(s),
{
    if s.stack.len() == 0 {
        WalkState { phase: PhaseView::Done, ..s }
    } else {
        let f = s.stack.last();
        if !(0 <= f.next < f.entries.len()) {
            advance(WalkState { stack: s.stack.drop_last(), ..s })
        } else {
            let e = f.entries[f.next];
            let t = moved_on(s);
            match verdict(s.exclude, e) {
                Verdict::Unnamed => advance(noted(t, ReportKind::SkipUnnamed, e.path)),
                Verdict::Excluded => advance(noted(t, ReportKind::SkipExcluded, e.name.unwrap())),
                Verdict::Descend => WalkState {
                    phase: PhaseView::AwaitDir {
                        local: joined(f.local, e.name.unwrap()),
                        remote: joined(f.remote, e.name.unwrap()),
                    },
                    ..t
                },
                Verdict::SizeUnknown => {
                    let path = joined(f.remote, e.name.unwrap());
                    advance(
                        noted(
                            noted(t, ReportKind::Checking, path),
                            ReportKind::SkipSizeUnknown,
                            path,
                        ),
                    )
                },
                Verdict::Compare(size) => {
                    let path = joined(f.remote, e.name.unwrap());
                    WalkState {
                        phase: PhaseView::AwaitProbe {
                            remote: path,
                            local: joined(f.local, e.name.unwrap()),
                            size,
                        },
                        ..noted(t, ReportKind::Checking, path)
                    }
                },
            }
        }
    }
}

/// The state after an answer. A failure ends the walk, whatever was asked. An
/// ensured directory is listed next. A listing is entered, and a probed file
/// joins the work list if it is stale: with the question answered, the walk
/// then goes on through the listings. An answer to a question that was not
/// asked changes nothing.
pub open spec fn step(s: WalkState, ev: EventView) -> WalkState {
    match (s.phase, ev) {
        (PhaseView::Done, _) => s,
        (PhaseView::Failed(_), _) => s,
        (_, EventView::Failed(m)) => WalkState { phase: PhaseView::Failed(m), ..s },
        (PhaseView::AwaitDir { local, remote }, EventView::DirReady) => WalkState {
            phase: PhaseView::AwaitListing { local, remote },
            ..noted(s, ReportKind::Scanning, remote)
        },
        (PhaseView::AwaitListing { local, remote }, EventView::Listed(entries)) => advance(
            WalkState {
                stack: s.stack.push(FrameView { local, remote, entries, next: 0 }),
                phase: PhaseView::Done,
                ..s
            },
        ),
        (PhaseView::AwaitProbe { remote, local, size }, EventView::Probed(len)) => advance(
            WalkState {
                work: if stale(size, len) {
                    s.work.push(PairView { remote, local })
                } else {
                    s.work
                },
                phase: PhaseView::Done,
                ..s
            },
        ),
        _ => s,
    }
}

/// What is to be done in a phase.
pub open spec fn action_of(p: PhaseView) -> ActionView {
    match p {
        PhaseView::AwaitDir { local, remote } => ActionView::EnsureDir(local),
        PhaseView::AwaitListing { local, remote } => ActionView::List(remote),
        PhaseView::AwaitProbe { remote, local, size } => ActionView::Probe(local),
        PhaseView::Done => ActionView::Finish,
        PhaseView::Failed(m) => ActionView::Abort(m),
    }
}

} // verus!
