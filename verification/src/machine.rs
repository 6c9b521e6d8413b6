//! The walk as executable code: a `Walker` holds the state and is stepped with
//! each answer of the outside world.

use vstd::prelude::*;
use crate::entry::{classify, entries_of, is_stale, RemoteEntry, Verdict};
use crate::exclusion::{sorted, ExclusionSet};
use crate::paths::join;
use crate::walker::{
    action_of, advance, initial, moved_on, noted, pairs_of, reports_of, step, top_remaining,
    Action, Event, FrameView, PhaseView, Report, ReportKind, TransferPair, WalkState,
};

verus! {

/// Why a run gave no work list.
#[derive(Clone, Debug, PartialEq, Eq)]
pub enum SyncError {
    /// The local root does not exist; this is its path.
    LocalRootMissing(String),
    /// A directory could not be created or listed, or a local file could not
    /// be measured; this is the reason given.
    Fatal(String),
    /// The walk was asked for its work list before it had ended.
    Unfinished,
}

/// An error as plain values.
pub ghost enum SyncErrorView {
    LocalRootMissing(Seq<char>),
    Fatal(Seq<char>),
    Unfinished,
}

impl View for SyncError {
    type V = SyncErrorView;

    open spec fn view(&self) -> SyncErrorView {
        match self {
            SyncError::LocalRootMissing(p) => SyncErrorView::LocalRootMissing(p@),
            SyncError::Fatal(m) => SyncErrorView::Fatal(m@),
            SyncError::Unfinished => SyncErrorView::Unfinished,
        }
    }
}

/// What a walk yields when it is asked for its work list: the list once the
/// walk is done, the reason once it has failed, and `Unfinished` before.
pub open spec fn outcome_of(s: WalkState) -> Result<Seq<crate::walker::PairView>, SyncErrorView> {
    match s.phase {
        PhaseView::Done => Ok(s.work),
        PhaseView::Failed(m) => Err(SyncErrorView::Fatal(m)),
        _ => Err(SyncErrorView::Unfinished),
    }
}

enum Phase {
    AwaitDir { local: String, remote: String },
    AwaitListing { local: String, remote: String },
    AwaitProbe { remote: String, local: String, size: u64 },
    Done,
    Failed(String),
}

impl View for Phase {
    type V = PhaseView;

    closed spec fn view(&self) -> PhaseView {
        match self {
            Phase::AwaitDir { local, remote } => PhaseView::AwaitDir {
                local: local@,
                remote: remote@,
            },
            Phase::AwaitListing { local, remote } => PhaseView::AwaitListing {
                local: local@,
                remote: remote@,
            },
            Phase::AwaitProbe { remote, local, size } => PhaseView::AwaitProbe {
                remote: remote@,
                local: local@,
                size: *size,
            },
            Phase::Done => PhaseView::Done,
            Phase::Failed(m) => PhaseView::Failed(m@),
        }
    }
}

struct Frame {
    local: String,
    remote: String,
    entries: Vec<RemoteEntry>,
    next: usize,
}

impl View for Frame {
    type V = FrameView;

    closed spec fn view(&self) -> FrameView {
        FrameView {
            local: self.local@,
            remote: self.remote@,
            entries: entries_of(self.entries@),
            next: self.next as int,
        }
    }
}

spec fn frames_of(v: Seq<Frame>) -> Seq<FrameView> {
    Seq::new(v.len(), |i: int| v[i]@)
}

/// A walk in progress.
pub struct Walker {
    exclude: ExclusionSet,
    stack: Vec<Frame>,
    work: Vec<TransferPair>,
    reports: Vec<Report>,
    phase: Phase,
}

impl View for Walker {
    type V = WalkState;

    closed spec fn view(&self) -> WalkState {
        WalkState {
            exclude: self.exclude@,
            stack: frames_of(self.stack@),
            work: pairs_of(self.work@),
            reports: reports_of(self.reports@),
            phase: self.phase@,
        }
    }
}

/// The name of an entry that has one; the empty string for one that has none.
fn name_of(e: &RemoteEntry) -> (r: String)
    ensures
        r@ == match e@.name {
            Some(n) => n,
            None => Seq::empty(),
        },
{
    match &e.name {
        Some(n) => n.clone(),
        None => String::new(),
    }
}

impl Walker {
    /// The excluded names are in lexicographic order.
    pub open spec fn wf(&self) -> bool {
        sorted(self@.exclude)
    }

    /// Begins a walk that mirrors `remote_root` onto `local_root`.
    pub fn start(exclude: ExclusionSet, local_root: String, remote_root: String) -> (w: Walker)
        requires
            exclude.wf(),
        ensures
            w.wf(),
            w@ == initial(exclude@, local_root@, remote_root@),
    {
        let w = Walker {
            exclude,
            stack: Vec::new(),
            work: Vec::new(),
            reports: Vec::new(),
            phase: Phase::AwaitDir { local: local_root, remote: remote_root },
        };
        assert(w@.stack =~= Seq::empty());
        assert(w@.work =~= Seq::empty());
        assert(w@.reports =~= Seq::empty());
        w
    }

    fn note(&mut self, kind: ReportKind, subject: String)
        requires
            old(self).wf(),
        ensures
            final(self).wf(),
            final(self)@ == noted(old(self)@, kind, subject@),
    {
        self.reports.push(Report { kind, subject });
        assert(self@.reports =~= old(self)@.reports.push(
            crate::walker::ReportView { kind, subject: subject@ },
        ));
    }

    fn run_on(self) -> (r: Walker)
        requires
            self.wf(),
        ensures
            r.wf(),
            r@ == advance(self@),
    {
        let mut w = self;
        let ghost target = advance(self@);
        loop
            invariant
                w.wf(),
                target == advance(self@),
                advance(w@) == target,
            decreases w@.stack.len(), top_remaining(w@),
        {
            let ghost before = w@;
            if w.stack.len() == 0 {
                w.phase = Phase::Done;
                return w;
            }
            let mut f = w.stack.pop().unwrap();
            assert(w@.stack =~= before.stack.drop_last());
            assert(f@ == before.stack.last());
            if f.next >= f.entries.len() {
                assert(w@ == WalkState { stack: before.stack.drop_last(), ..before });
            } else {
                let v = classify(&w.exclude, &f.entries[f.next]);
                let name = name_of(&f.entries[f.next]);
                let ghost e = f@.entries[f@.next];
                assert(e == f.entries@[f.next as int]@);
                let ghost g = f@;
                f.next = f.next + 1;
                assert(f@ == FrameView { next: g.next + 1, ..g });
                w.stack.push(f);
                assert(w@.stack =~= moved_on(before).stack);
                assert(w@ == moved_on(before));
                let top = &w.stack[w.stack.len() - 1];
                assert(top@.local == g.local && top@.remote == g.remote);
                assert(top.next == g.next + 1 && top.entries@[g.next]@ == e);
                match v {
                    Verdict::Unnamed => {
                        let shown = top.entries[top.next - 1].path.clone();
                        w.note(ReportKind::SkipUnnamed, shown);
                    },
                    Verdict::Excluded => {
                        w.note(ReportKind::SkipExcluded, name);
                    },
                    Verdict::Descend => {
                        let local = join(top.local.as_str(), name.as_str());
                        let remote = join(top.remote.as_str(), name.as_str());
                        w.phase = Phase::AwaitDir { local, remote };
                        return w;
                    },
                    Verdict::SizeUnknown => {
                        let remote = join(top.remote.as_str(), name.as_str());
                        w.note(ReportKind::Checking, remote.clone());
                        w.note(ReportKind::SkipSizeUnknown, remote);
                    },
                    Verdict::Compare(size) => {
                        let local = join(top.local.as_str(), name.as_str());
                        let remote = join(top.remote.as_str(), name.as_str());
                        w.note(ReportKind::Checking, remote.clone());
                        w.phase = Phase::AwaitProbe { remote, local, size };
                        return w;
                    },
                }
            }
        }
    }

    /// Takes the answer to the last request and moves to the next one.
    pub fn step(self, event: Event) -> (r: Walker)
        requires
            self.wf(),
        ensures
            r.wf(),
            r@ == step(self@, event@),
    {
        let Walker { exclude, stack, work, reports, phase } = self;
        let mut work = work;
        let mut stack = stack;
        match (phase, event) {
            (Phase::Done, _) => Walker { exclude, stack, work, reports, phase: Phase::Done },
            (Phase::Failed(m), _) => Walker {
                exclude,
                stack,
                work,
                reports,
                phase: Phase::Failed(m),
            },
            (_, Event::Failed(m)) => Walker {
                exclude,
                stack,
                work,
                reports,
                phase: Phase::Failed(m),
            },
            (Phase::AwaitDir { local, remote }, Event::DirReady) => {
                let subject = remote.clone();
                let mut w = Walker {
                    exclude,
                    stack,
                    work,
                    reports,
                    phase: Phase::AwaitListing { local, remote },
                };
                w.note(ReportKind::Scanning, subject);
                w
            },
            (Phase::AwaitListing { local, remote }, Event::Listed(entries)) => {
                let ghost fv = FrameView {
                    local: local@,
                    remote: remote@,
                    entries: entries_of(entries@),
                    next: 0,
                };
                stack.push(Frame { local, remote, entries, next: 0 });
                assert(frames_of(stack@) =~= self@.stack.push(fv));
                let w = Walker { exclude, stack, work, reports, phase: Phase::Done };
                w.run_on()
            },
            (Phase::AwaitProbe { remote, local, size }, Event::Probed(len)) => {
                if is_stale(size, len) {
                    let ghost pv = crate::walker::PairView { remote: remote@, local: local@ };
                    work.push(TransferPair { remote_path: remote, local_path: local });
                    assert(pairs_of(work@) =~= self@.work.push(pv));
                }
                let w = Walker { exclude, stack, work, reports, phase: Phase::Done };
                w.run_on()
            },
            (phase, _) => Walker { exclude, stack, work, reports, phase },
        }
    }

    /// What the caller is to do next.
    pub fn action(&self) -> (a: Action)
        ensures
            a@ == action_of(self@.phase),
    {
        match &self.phase {
            Phase::AwaitDir { local, remote } => Action::EnsureDir(local.clone()),
            Phase::AwaitListing { local, remote } => Action::List(remote.clone()),
            Phase::AwaitProbe { remote, local, size } => Action::Probe(local.clone()),
            Phase::Done => Action::Finish,
            Phase::Failed(m) => Action::Abort(m.clone()),
        }
    }

    /// The notices given so far, the oldest first.
    pub fn reports(&self) -> (r: &Vec<Report>)
        ensures
            reports_of(r@) == self@.reports,
    {
        &self.reports
    }

    /// Ends the walk and hands out its work list. A walk that failed, or that
    /// has not ended, hands out none.
    pub fn finish(self) -> (r: Result<Vec<TransferPair>, SyncError>)
        ensures
            match (r, outcome_of(self@)) {
                (Ok(v), Ok(s)) => pairs_of(v@) == s,
                (Err(e), Err(f)) => e@ == f,
                _ => false,
            },
    {
        match self.phase {
            Phase::Done => Ok(self.work),
            Phase::Failed(m) => Err(SyncError::Fatal(m)),
            _ => Err(SyncError::Unfinished),
        }
    }
}

} // verus!
