//! The walk held against the recursive descent that it stands for: a world of
//! directories and files is fixed, the walk is driven by what that world
//! answers, and the outcome is that of visiting each directory in turn, each
//! subdirectory wholly before the entries after it.

use vstd::prelude::*;
use crate::entry::{stale, verdict, EntryView, Verdict};
use crate::laws::{calls_for_copy, found_stale_at, lemma_only_stale_files_are_listed, run};
use crate::machine::{outcome_of, SyncErrorView};
use crate::paths::{descended, joined};
use crate::walker::{
    advance, initial, moved_on, noted, remaining, step, EventView, FrameView, PairView, PhaseView,
    ReportKind, ReportView, WalkState,
};

verus! {

/// What the outside world answers to each request.
pub ghost struct World {
    /// Creating a local directory: `None` where it succeeds, the reason where not.
    pub ensure: spec_fn(Seq<char>) -> Option<Seq<char>>,
    /// Listing a remote directory: its entries, or the reason of the failure.
    pub list: spec_fn(Seq<char>) -> Result<Seq<EntryView>, Seq<char>>,
    /// Measuring a local file: its length, `None` where there is no such
    /// file, or the reason of the failure.
    pub measure: spec_fn(Seq<char>) -> Result<Option<u64>, Seq<char>>,
}

/// The answer of the world to what a walk in phase `p` asks.
pub open spec fn answer(w: World, p: PhaseView) -> EventView {
    match p {
        PhaseView::AwaitDir { local, remote } => match (w.ensure)(local) {
            None => EventView::DirReady,
            Some(m) => EventView::Failed(m),
        },
        PhaseView::AwaitListing { local, remote } => match (w.list)(remote) {
            Ok(entries) => EventView::Listed(entries),
            Err(m) => EventView::Failed(m),
        },
        PhaseView::AwaitProbe { remote, local, size } => match (w.measure)(local) {
            Ok(len) => EventView::Probed(len),
            Err(m) => EventView::Failed(m),
        },
        _ => EventView::DirReady,
    }
}

/// The state after `n` requests, each answered by the world.
pub open spec fn drive(w: World, s: WalkState, n: nat) -> WalkState
    decreases n,
{
    if n == 0 {
        s
    } else {
        drive(w, step(s, answer(w, s.phase)), (n - 1) as nat)
    }
}

/// What a descent has gathered: the files to copy and the notices given.
pub ghost struct Tally {
    pub work: Seq<PairView>,
    pub reports: Seq<ReportView>,
}

/// How a descent ends.
pub ghost enum Descent {
    /// Every directory was visited; this was gathered.
    Complete(Tally),
    /// A request failed, for this reason.
    Failed(Seq<char>),
    /// The tree goes deeper than the depth allowed for.
    TooDeep,
}

/// `t` with one more notice.
pub open spec fn told(t: Tally, kind: ReportKind, subject: Seq<char>) -> Tally {
    Tally { reports: t.reports.push(ReportView { kind, subject }), ..t }
}

/// `t` after the file at `path` was checked against its local counterpart at
/// `target`: the file is noted, and joins the work list if it is stale.
pub open spec fn after_measuring(
    t: Tally,
    path: Seq<char>,
    target: Seq<char>,
    size: u64,
    len: Option<u64>,
) -> Tally {
    Tally {
        work: if stale(size, len) {
            t.work.push(PairView { remote: path, local: target })
        } else {
            t.work
        },
        reports: t.reports.push(ReportView { kind: ReportKind::Checking, subject: path }),
    }
}

/// Visits the remote directory `remote`, mirrored at `local`: creates the
/// local directory, lists the remote one, and goes through its entries.
/// The first request that fails ends the descent.
pub open spec fn descend(
    w: World,
    exclude: Seq<Seq<char>>,
    local: Seq<char>,
    remote: Seq<char>,
    t: Tally,
    depth: nat,
) -> Descent
    decreases depth, 1nat, 0nat,
{
    if depth == 0 {
        Descent::TooDeep
    } else {
        match (w.ensure)(local) {
            Some(m) => Descent::Failed(m),
            None => match (w.list)(remote) {
                Err(m) => Descent::Failed(m),
                Ok(entries) => descend_entries(
                    w,
                    exclude,
                    local,
                    remote,
                    entries,
                    0,
                    told(t, ReportKind::Scanning, remote),
                    depth,
                ),
            },
        }
    }
}

/// Goes through the entries of a listing from the `k`th on. An entry without
/// a name, an excluded entry and a file of unknown length are passed over; a
/// directory is visited at once; a file joins the work list if it is stale.
pub open spec fn descend_entries(
    w: World,
    exclude: Seq<Seq<char>>,
    local: Seq<char>,
    remote: Seq<char>,
    entries: Seq<EntryView>,
    k: int,
    t: Tally,
    depth: nat,
) -> Descent
    decreases depth, 0nat, (if 0 <= k < entries.len() { entries.len() - k } else { 0 }),
{
    if !(0 <= k < entries.len()) {
        Descent::Complete(t)
    } else {
        let e = entries[k];
        match verdict(exclude, e) {
            Verdict::Unnamed => descend_entries(
                w,
                exclude,
                local,
                remote,
                entries,
                k + 1,
                told(t, ReportKind::SkipUnnamed, e.path),
                depth,
            ),
            Verdict::Excluded => descend_entries(
                w,
                exclude,
                local,
                remote,
                entries,
                k + 1,
                told(t, ReportKind::SkipExcluded, e.name.unwrap()),
                depth,
            ),
            Verdict::Descend => if depth == 0 {
                Descent::TooDeep
            } else {
                match descend(
                    w,
                    exclude,
                    joined(local, e.name.unwrap()),
                    joined(remote, e.name.unwrap()),
                    t,
                    (depth - 1) as nat,
                ) {
                    Descent::Complete(t1) => descend_entries(
                        w,
                        exclude,
                        local,
                        remote,
                        entries,
                        k + 1,
                        t1,
                        depth,
                    ),
                    other => other,
                }
            },
            Verdict::SizeUnknown => {
                let path = joined(remote, e.name.unwrap());
                descend_entries(
                    w,
                    exclude,
                    local,
                    remote,
                    entries,
                    k + 1,
                    told(told(t, ReportKind::Checking, path), ReportKind::SkipSizeUnknown, path),
                    depth,
                )
            },
            Verdict::Compare(size) => {
                let path = joined(remote, e.name.unwrap());
                let target = joined(local, e.name.unwrap());
                match (w.measure)(target) {
                    Err(m) => Descent::Failed(m),
                    Ok(len) => descend_entries(
                        w,
                        exclude,
                        local,
                        remote,
                        entries,
                        k + 1,
                        after_measuring(t, path, target, size, len),
                        depth,
                    ),
                }
            },
        }
    }
}

/// What a walk has gathered so far.
pub open spec fn tally(s: WalkState) -> Tally {
    Tally { work: s.work, reports: s.reports }
}

/// The state of a walk that has gathered `t`, with `stack` still to go through.
pub open spec fn resumed(exclude: Seq<Seq<char>>, stack: Seq<FrameView>, t: Tally) -> WalkState {
    WalkState { exclude, stack, work: t.work, reports: t.reports, phase: PhaseView::Done }
}

/// Driving a walk for `a` requests and then for `b` more is driving it for `a + b`.
pub proof fn lemma_drive_in_two(w: World, s: WalkState, a: nat, b: nat)
    ensures
        drive(w, s, a + b) == drive(w, drive(w, s, a), b),
    decreases a,
{
    if a > 0 {
        lemma_drive_in_two(w, step(s, answer(w, s.phase)), (a - 1) as nat, b);
        assert((a + b - 1) as nat == (a - 1) as nat + b);
    }
}

/// Whether the walk in state `r` has ended as the descent `d` did: complete,
/// with the same work list and notices and with `stack` still to go through,
/// or failed, for the same reason.
pub open spec fn ended_as(r: WalkState, d: Descent, exclude: Seq<Seq<char>>, stack: Seq<FrameView>)
    -> bool {
    match d {
        Descent::Complete(t) => r == advance(resumed(exclude, stack, t)),
        Descent::Failed(m) => r.phase == PhaseView::Failed(m),
        Descent::TooDeep => true,
    }
}

/// A walk that is about to create a directory ends, when driven by the world,
/// as the descent into that directory does: it gathers the same and goes on
/// with the directories above, or fails for the same reason. The result is
/// the number of requests it takes.
pub proof fn lemma_directory_follows_descent(w: World, s: WalkState, depth: nat) -> (n: nat)
    requires
        s.phase is AwaitDir,
    ensures
        ended_as(
            drive(w, s, n),
            descend(
                w,
                s.exclude,
                s.phase->AwaitDir_local,
                s.phase->AwaitDir_remote,
                tally(s),
                depth,
            ),
            s.exclude,
            s.stack,
        ),
    decreases depth, 1nat, 0nat,
{
    let local = s.phase->AwaitDir_local;
    let remote = s.phase->AwaitDir_remote;
    let s1 = step(s, answer(w, s.phase));
    if depth == 0 {
        0
    } else if (w.ensure)(local) is Some {
        assert(drive(w, s, 1) == drive(w, s1, 0));
        1
    } else {
        assert(s1 == WalkState {
            phase: PhaseView::AwaitListing { local, remote },
            ..noted(s, ReportKind::Scanning, remote)
        });
        let s2 = step(s1, answer(w, s1.phase));
        assert(drive(w, s, 2) == s2) by {
            assert(drive(w, s, 2) == drive(w, s1, 1));
            assert(drive(w, s1, 1) == drive(w, s2, 0));
        }
        match (w.list)(remote) {
            Err(m) => 2,
            Ok(entries) => {
                let s3 = WalkState {
                    stack: s1.stack.push(FrameView { local, remote, entries, next: 0 }),
                    phase: PhaseView::Done,
                    ..s1
                };
                assert(s2 == advance(s3));
                assert(s3.stack.drop_last() =~= s.stack);
                assert(tally(s3) == told(tally(s), ReportKind::Scanning, remote));
                let m = lemma_entries_follow_descent(w, s3, depth);
                lemma_drive_in_two(w, s, 2, m);
                m + 2
            },
        }
    }
}

/// A walk that is going through a listing ends, when driven by the world, as
/// the descent through the rest of that listing does: it gathers the same and
/// goes on with the directories above, or fails for the same reason. The
/// result is the number of requests it takes.
pub proof fn lemma_entries_follow_descent(w: World, s: WalkState, depth: nat) -> (n: nat)
    requires
        s.stack.len() > 0,
    ensures
        ended_as(
            drive(w, advance(s), n),
            descend_entries(
                w,
                s.exclude,
                s.stack.last().local,
                s.stack.last().remote,
                s.stack.last().entries,
                s.stack.last().next,
                tally(s),
                depth,
            ),
            s.exclude,
            s.stack.drop_last(),
        ),
    decreases depth, 0nat, remaining(s.stack.last()),
{
    let f = s.stack.last();
    if !(0 <= f.next < f.entries.len()) {
        let popped = WalkState { stack: s.stack.drop_last(), ..s };
        assert(advance(s) == advance(popped));
        lemma_phase_is_forgotten(popped);
        assert(resumed(s.exclude, s.stack.drop_last(), tally(s)) == WalkState {
            phase: PhaseView::Done,
            ..popped
        });
        0
    } else {
        let e = f.entries[f.next];
        let t = moved_on(s);
        assert(t.stack.drop_last() =~= s.stack.drop_last());
        assert(t.stack.last() == FrameView { next: f.next + 1, ..f });
        match verdict(s.exclude, e) {
            Verdict::Unnamed => {
                let s1 = noted(t, ReportKind::SkipUnnamed, e.path);
                lemma_entries_follow_descent(w, s1, depth)
            },
            Verdict::Excluded => {
                let s1 = noted(t, ReportKind::SkipExcluded, e.name.unwrap());
                lemma_entries_follow_descent(w, s1, depth)
            },
            Verdict::SizeUnknown => {
                let path = joined(f.remote, e.name.unwrap());
                let s1 = noted(
                    noted(t, ReportKind::Checking, path),
                    ReportKind::SkipSizeUnknown,
                    path,
                );
                lemma_entries_follow_descent(w, s1, depth)
            },
            Verdict::Descend => {
                if depth == 0 {
                    0
                } else {
                    let a = advance(s);
                    let below = descend(
                        w,
                        s.exclude,
                        joined(f.local, e.name.unwrap()),
                        joined(f.remote, e.name.unwrap()),
                        tally(s),
                        (depth - 1) as nat,
                    );
                    assert(tally(a) == tally(s));
                    let n1 = lemma_directory_follows_descent(w, a, (depth - 1) as nat);
                    match below {
                        Descent::Complete(t1) => {
                            let s2 = resumed(s.exclude, a.stack, t1);
                            let n2 = lemma_entries_follow_descent(w, s2, depth);
                            lemma_drive_in_two(w, a, n1, n2);
                            n1 + n2
                        },
                        _ => n1,
                    }
                }
            },
            Verdict::Compare(size) => {
                let a = advance(s);
                let path = joined(f.remote, e.name.unwrap());
                let target = joined(f.local, e.name.unwrap());
                let a1 = step(a, answer(w, a.phase));
                assert(drive(w, a, 1) == drive(w, a1, 0));
                match (w.measure)(target) {
                    Err(m) => 1,
                    Ok(len) => {
                        let s2 = WalkState {
                            work: if stale(size, len) {
                                a.work.push(PairView { remote: path, local: target })
                            } else {
                                a.work
                            },
                            phase: PhaseView::Done,
                            ..a
                        };
                        assert(a1 == advance(s2));
                        let n2 = lemma_entries_follow_descent(w, s2, depth);
                        lemma_drive_in_two(w, a, 1, n2);
                        n2 + 1
                    },
                }
            },
        }
    }
}

/// Going through the listings does not depend on what was awaited before.
pub proof fn lemma_phase_is_forgotten(s: WalkState)
    ensures
        advance(s) == advance(WalkState { phase: PhaseView::Done, ..s }),
    decreases s.stack.len(), crate::walker::top_remaining(s),
{
    let d = WalkState { phase: PhaseView::Done, ..s };
    if s.stack.len() > 0 {
        let f = s.stack.last();
        if !(0 <= f.next < f.entries.len()) {
            lemma_phase_is_forgotten(WalkState { stack: s.stack.drop_last(), ..s });
            assert(WalkState { stack: d.stack.drop_last(), ..d } == WalkState {
                phase: PhaseView::Done,
                ..WalkState { stack: s.stack.drop_last(), ..s }
            });
        } else {
            let e = f.entries[f.next];
            let t = moved_on(s);
            assert(moved_on(d) == WalkState { phase: PhaseView::Done, ..t });
            match verdict(s.exclude, e) {
                Verdict::Unnamed => {
                    lemma_phase_is_forgotten(noted(t, ReportKind::SkipUnnamed, e.path));
                },
                Verdict::Excluded => {
                    lemma_phase_is_forgotten(noted(t, ReportKind::SkipExcluded, e.name.unwrap()));
                },
                Verdict::SizeUnknown => {
                    let path = joined(f.remote, e.name.unwrap());
                    lemma_phase_is_forgotten(
                        noted(
                            noted(t, ReportKind::Checking, path),
                            ReportKind::SkipSizeUnknown,
                            path,
                        ),
                    );
                },
                _ => {},
            }
        }
    }
}

/// `longer` begins with the pairs of `shorter`, in their order.
pub open spec fn extends(longer: Seq<PairView>, shorter: Seq<PairView>) -> bool {
    &&& shorter.len() <= longer.len()
    &&& forall|i: int| 0 <= i < shorter.len() ==> longer[i] == shorter[i]
}

/// The descent into a directory keeps the pairs gathered before it, in their
/// places.
pub proof fn lemma_descent_keeps_work(
    w: World,
    exclude: Seq<Seq<char>>,
    local: Seq<char>,
    remote: Seq<char>,
    t: Tally,
    depth: nat,
)
    ensures
        descend(w, exclude, local, remote, t, depth) is Complete ==> extends(
            descend(w, exclude, local, remote, t, depth)->Complete_0.work,
            t.work,
        ),
    decreases depth, 1nat, 0nat,
{
    if depth > 0 && (w.ensure)(local) is None {
        match (w.list)(remote) {
            Err(_) => {},
            Ok(entries) => {
                lemma_entries_keep_work(
                    w,
                    exclude,
                    local,
                    remote,
                    entries,
                    0,
                    told(t, ReportKind::Scanning, remote),
                    depth,
                );
            },
        }
    }
}

/// The descent through a listing keeps the pairs gathered before it, in their
/// places.
pub proof fn lemma_entries_keep_work(
    w: World,
    exclude: Seq<Seq<char>>,
    local: Seq<char>,
    remote: Seq<char>,
    entries: Seq<EntryView>,
    k: int,
    t: Tally,
    depth: nat,
)
    ensures
        descend_entries(w, exclude, local, remote, entries, k, t, depth) is Complete ==> extends(
            descend_entries(w, exclude, local, remote, entries, k, t, depth)->Complete_0.work,
            t.work,
        ),
    decreases depth, 0nat, (if 0 <= k < entries.len() { entries.len() - k } else { 0 }),
{
    if 0 <= k < entries.len() {
        let e = entries[k];
        match verdict(exclude, e) {
            Verdict::Unnamed => {
                lemma_entries_keep_work(
                    w,
                    exclude,
                    local,
                    remote,
                    entries,
                    k + 1,
                    told(t, ReportKind::SkipUnnamed, e.path),
                    depth,
                );
            },
            Verdict::Excluded => {
                lemma_entries_keep_work(
                    w,
                    exclude,
                    local,
                    remote,
                    entries,
                    k + 1,
                    told(t, ReportKind::SkipExcluded, e.name.unwrap()),
                    depth,
                );
            },
            Verdict::SizeUnknown => {
                let path = joined(remote, e.name.unwrap());
                lemma_entries_keep_work(
                    w,
                    exclude,
                    local,
                    remote,
                    entries,
                    k + 1,
                    told(told(t, ReportKind::Checking, path), ReportKind::SkipSizeUnknown, path),
                    depth,
                );
            },
            Verdict::Descend => {
                if depth > 0 {
                    let below = descend(
                        w,
                        exclude,
                        joined(local, e.name.unwrap()),
                        joined(remote, e.name.unwrap()),
                        t,
                        (depth - 1) as nat,
                    );
                    lemma_descent_keeps_work(
                        w,
                        exclude,
                        joined(local, e.name.unwrap()),
                        joined(remote, e.name.unwrap()),
                        t,
                        (depth - 1) as nat,
                    );
                    if let Descent::Complete(t1) = below {
                        lemma_entries_keep_work(
                            w,
                            exclude,
                            local,
                            remote,
                            entries,
                            k + 1,
                            t1,
                            depth,
                        );
                    }
                }
            },
            Verdict::Compare(size) => {
                let path = joined(remote, e.name.unwrap());
                let target = joined(local, e.name.unwrap());
                if let Ok(len) = (w.measure)(target) {
                    lemma_entries_keep_work(
                        w,
                        exclude,
                        local,
                        remote,
                        entries,
                        k + 1,
                        after_measuring(t, path, target, size, len),
                        depth,
                    );
                }
            },
        }
    }
}

/// Every stale file is gathered. Where the descent through a listing is
/// complete, each file of the listing from the `k`th entry on that has a
/// name, is not excluded, and is missing locally or has another length
/// locally than remotely, is in the work list, as the pair of its remote and
/// its local path.
pub proof fn lemma_stale_file_is_gathered(
    w: World,
    exclude: Seq<Seq<char>>,
    local: Seq<char>,
    remote: Seq<char>,
    entries: Seq<EntryView>,
    k: int,
    t: Tally,
    depth: nat,
    i: int,
)
    requires
        0 <= k <= i < entries.len(),
        descend_entries(w, exclude, local, remote, entries, k, t, depth) is Complete,
        verdict(exclude, entries[i]) is Compare,
        (w.measure)(joined(local, entries[i].name.unwrap())) is Ok,
        stale(
            verdict(exclude, entries[i])->Compare_0,
            (w.measure)(joined(local, entries[i].name.unwrap()))->Ok_0,
        ),
    ensures
        descend_entries(w, exclude, local, remote, entries, k, t, depth)->Complete_0.work.contains(
            PairView {
                remote: joined(remote, entries[i].name.unwrap()),
                local: joined(local, entries[i].name.unwrap()),
            },
        ),
    decreases i - k,
{
    let e = entries[k];
    let all = descend_entries(w, exclude, local, remote, entries, k, t, depth)->Complete_0;
    if k == i {
        let path = joined(remote, e.name.unwrap());
        let target = joined(local, e.name.unwrap());
        let size = verdict(exclude, e)->Compare_0;
        let len = (w.measure)(target)->Ok_0;
        let t1 = after_measuring(t, path, target, size, len);
        lemma_entries_keep_work(w, exclude, local, remote, entries, k + 1, t1, depth);
        assert(t1.work[t.work.len() as int] == PairView { remote: path, local: target });
        assert(all.work[t.work.len() as int] == PairView { remote: path, local: target });
    } else {
        match verdict(exclude, e) {
            Verdict::Unnamed => {
                lemma_stale_file_is_gathered(
                    w,
                    exclude,
                    local,
                    remote,
                    entries,
                    k + 1,
                    told(t, ReportKind::SkipUnnamed, e.path),
                    depth,
                    i,
                );
            },
            Verdict::Excluded => {
                lemma_stale_file_is_gathered(
                    w,
                    exclude,
                    local,
                    remote,
                    entries,
                    k + 1,
                    told(t, ReportKind::SkipExcluded, e.name.unwrap()),
                    depth,
                    i,
                );
            },
            Verdict::SizeUnknown => {
                let path = joined(remote, e.name.unwrap());
                lemma_stale_file_is_gathered(
                    w,
                    exclude,
                    local,
                    remote,
                    entries,
                    k + 1,
                    told(told(t, ReportKind::Checking, path), ReportKind::SkipSizeUnknown, path),
                    depth,
                    i,
                );
            },
            Verdict::Descend => {
                let below = descend(
                    w,
                    exclude,
                    joined(local, e.name.unwrap()),
                    joined(remote, e.name.unwrap()),
                    t,
                    (depth - 1) as nat,
                );
                lemma_stale_file_is_gathered(
                    w,
                    exclude,
                    local,
                    remote,
                    entries,
                    k + 1,
                    below->Complete_0,
                    depth,
                    i,
                );
            },
            Verdict::Compare(size) => {
                let path = joined(remote, e.name.unwrap());
                let target = joined(local, e.name.unwrap());
                lemma_stale_file_is_gathered(
                    w,
                    exclude,
                    local,
                    remote,
                    entries,
                    k + 1,
                    after_measuring(t, path, target, size, (w.measure)(target)->Ok_0),
                    depth,
                    i,
                );
            },
        }
    }
}

/// Each directory of a listing is descended into. Where the descent through a
/// listing is complete, it holds a complete descent into each directory of
/// the listing from the `k`th entry on that has a name and is not excluded,
/// and keeps what that descent gathered. The result is what had been gathered
/// when that descent began.
pub proof fn lemma_subdirectory_is_descended(
    w: World,
    exclude: Seq<Seq<char>>,
    local: Seq<char>,
    remote: Seq<char>,
    entries: Seq<EntryView>,
    k: int,
    t: Tally,
    depth: nat,
    i: int,
) -> (before: Tally)
    requires
        0 <= k <= i < entries.len(),
        descend_entries(w, exclude, local, remote, entries, k, t, depth) is Complete,
        verdict(exclude, entries[i]) is Descend,
    ensures
        depth > 0,
        descend(
            w,
            exclude,
            joined(local, entries[i].name.unwrap()),
            joined(remote, entries[i].name.unwrap()),
            before,
            (depth - 1) as nat,
        ) is Complete,
        extends(
            descend_entries(w, exclude, local, remote, entries, k, t, depth)->Complete_0.work,
            descend(
                w,
                exclude,
                joined(local, entries[i].name.unwrap()),
                joined(remote, entries[i].name.unwrap()),
                before,
                (depth - 1) as nat,
            )->Complete_0.work,
        ),
    decreases i - k,
{
    let e = entries[k];
    match verdict(exclude, e) {
        Verdict::Unnamed => {
            lemma_subdirectory_is_descended(
                w,
                exclude,
                local,
                remote,
                entries,
                k + 1,
                told(t, ReportKind::SkipUnnamed, e.path),
                depth,
                i,
            )
        },
        Verdict::Excluded => {
            lemma_subdirectory_is_descended(
                w,
                exclude,
                local,
                remote,
                entries,
                k + 1,
                told(t, ReportKind::SkipExcluded, e.name.unwrap()),
                depth,
                i,
            )
        },
        Verdict::SizeUnknown => {
            let path = joined(remote, e.name.unwrap());
            lemma_subdirectory_is_descended(
                w,
                exclude,
                local,
                remote,
                entries,
                k + 1,
                told(told(t, ReportKind::Checking, path), ReportKind::SkipSizeUnknown, path),
                depth,
                i,
            )
        },
        Verdict::Descend => {
            let below = descend(
                w,
                exclude,
                joined(local, e.name.unwrap()),
                joined(remote, e.name.unwrap()),
                t,
                (depth - 1) as nat,
            );
            if k == i {
                lemma_entries_keep_work(
                    w,
                    exclude,
                    local,
                    remote,
                    entries,
                    k + 1,
                    below->Complete_0,
                    depth,
                );
                t
            } else {
                lemma_subdirectory_is_descended(
                    w,
                    exclude,
                    local,
                    remote,
                    entries,
                    k + 1,
                    below->Complete_0,
                    depth,
                    i,
                )
            }
        },
        Verdict::Compare(size) => {
            let path = joined(remote, e.name.unwrap());
            let target = joined(local, e.name.unwrap());
            lemma_subdirectory_is_descended(
                w,
                exclude,
                local,
                remote,
                entries,
                k + 1,
                after_measuring(t, path, target, size, (w.measure)(target)->Ok_0),
                depth,
                i,
            )
        },
    }
}

/// The directory `name`, with a name that is not excluded, is listed in the
/// remote directory `remote`.
pub open spec fn holds_directory(
    w: World,
    exclude: Seq<Seq<char>>,
    remote: Seq<char>,
    name: Seq<char>,
) -> bool {
    &&& (w.list)(remote) is Ok
    &&& exists|i: int|
        0 <= i < (w.list)(remote)->Ok_0.len() && verdict(
            exclude,
            #[trigger] (w.list)(remote)->Ok_0[i],
        ) is Descend && (w.list)(remote)->Ok_0[i].name == Some(name)
}

/// Each name of `trail` is that of a directory, not excluded, listed in the
/// directory that the names before it lead to from `remote`.
pub open spec fn leads_down(
    w: World,
    exclude: Seq<Seq<char>>,
    remote: Seq<char>,
    trail: Seq<Seq<char>>,
) -> bool
    decreases trail.len(),
{
    trail.len() == 0 || (leads_down(w, exclude, remote, trail.drop_last()) && holds_directory(
        w,
        exclude,
        descended(remote, trail.drop_last()),
        trail.last(),
    ))
}

/// Every directory below the roots is descended into. Where the descent from
/// the roots is complete, it holds a complete descent into each directory
/// that a trail of listed, not excluded directory names leads to, and keeps
/// what that descent gathered. The result is what had been gathered when that
/// descent began, and the depth left to it.
pub proof fn lemma_every_directory_is_descended(
    w: World,
    exclude: Seq<Seq<char>>,
    local: Seq<char>,
    remote: Seq<char>,
    t: Tally,
    depth: nat,
    trail: Seq<Seq<char>>,
) -> (at: (Tally, nat))
    requires
        descend(w, exclude, local, remote, t, depth) is Complete,
        leads_down(w, exclude, remote, trail),
    ensures
        descend(
            w,
            exclude,
            descended(local, trail),
            descended(remote, trail),
            at.0,
            at.1,
        ) is Complete,
        extends(
            descend(w, exclude, local, remote, t, depth)->Complete_0.work,
            descend(
                w,
                exclude,
                descended(local, trail),
                descended(remote, trail),
                at.0,
                at.1,
            )->Complete_0.work,
        ),
    decreases trail.len(),
{
    if trail.len() == 0 {
        (t, depth)
    } else {
        let up = trail.drop_last();
        let name = trail.last();
        let above = lemma_every_directory_is_descended(w, exclude, local, remote, t, depth, up);
        let dir_local = descended(local, up);
        let dir_remote = descended(remote, up);
        let entries = (w.list)(dir_remote)->Ok_0;
        let i = choose|i: int|
            0 <= i < entries.len() && verdict(exclude, #[trigger] entries[i]) is Descend
                && entries[i].name == Some(name);
        let before = lemma_subdirectory_is_descended(
            w,
            exclude,
            dir_local,
            dir_remote,
            entries,
            0,
            told(above.0, ReportKind::Scanning, dir_remote),
            above.1,
            i,
        );
        (before, (above.1 - 1) as nat)
    }
}

/// Every stale file is gathered, at any depth. Where the descent from the
/// roots is complete, each file that has a name, is not excluded, lies in a
/// directory that listed, not excluded directory names lead to, and is
/// missing locally or has another length locally than remotely, is in the
/// work list, as the pair of its remote and its local path.
pub proof fn lemma_stale_file_is_gathered_at_any_depth(
    w: World,
    exclude: Seq<Seq<char>>,
    local: Seq<char>,
    remote: Seq<char>,
    t: Tally,
    depth: nat,
    trail: Seq<Seq<char>>,
    shown: Seq<char>,
    name: Seq<char>,
    size: u64,
)
    requires
        descend(w, exclude, local, remote, t, depth) is Complete,
        leads_down(w, exclude, remote, trail),
        !exclude.contains(name),
        (w.list)(descended(remote, trail)) is Ok,
        (w.list)(descended(remote, trail))->Ok_0.contains(
            EntryView { path: shown, name: Some(name), is_dir: false, size: Some(size) },
        ),
        (w.measure)(joined(descended(local, trail), name)) is Ok,
        stale(size, (w.measure)(joined(descended(local, trail), name))->Ok_0),
    ensures
        descend(w, exclude, local, remote, t, depth)->Complete_0.work.contains(
            PairView {
                remote: joined(descended(remote, trail), name),
                local: joined(descended(local, trail), name),
            },
        ),
{
    let at = lemma_every_directory_is_descended(w, exclude, local, remote, t, depth, trail);
    let dir_local = descended(local, trail);
    let dir_remote = descended(remote, trail);
    let entries = (w.list)(dir_remote)->Ok_0;
    let file = EntryView { path: shown, name: Some(name), is_dir: false, size: Some(size) };
    let j = choose|j: int| 0 <= j < entries.len() && entries[j] == file;
    let inner = descend(w, exclude, dir_local, dir_remote, at.0, at.1);
    lemma_stale_file_is_gathered(
        w,
        exclude,
        dir_local,
        dir_remote,
        entries,
        0,
        told(at.0, ReportKind::Scanning, dir_remote),
        at.1,
        j,
    );
    let pair = PairView { remote: joined(dir_remote, name), local: joined(dir_local, name) };
    let p = choose|p: int| 0 <= p < inner->Complete_0.work.len() && inner->Complete_0.work[p] == pair;
    assert(descend(w, exclude, local, remote, t, depth)->Complete_0.work[p] == pair);
}

/// The answers that the world gives in the first `n` requests of a walk.
pub open spec fn answers(w: World, s: WalkState, n: nat) -> Seq<EventView> {
    Seq::new(n, |j: int| answer(w, drive(w, s, j as nat).phase))
}

/// A walk driven by the world is the run over the answers of the world, so
/// that what holds of every run holds of it.
pub proof fn lemma_drive_is_a_run(w: World, s: WalkState, n: nat)
    ensures
        run(s, answers(w, s, n)) == drive(w, s, n),
    decreases n,
{
    if n > 0 {
        let m = (n - 1) as nat;
        lemma_drive_is_a_run(w, s, m);
        lemma_drive_in_two(w, s, m, 1);
        let at = drive(w, s, m);
        assert(drive(w, at, 1) == drive(w, step(at, answer(w, at.phase)), 0));
        assert(answers(w, s, n).drop_last() =~= answers(w, s, m));
        assert(answers(w, s, n).last() == answer(w, at.phase));
    }
}

/// A file of equal length is not gathered. Where the local file `local` has
/// the length of every remote file that the walk holds against it in its first
/// `n` requests, no pair of the work list names it, whatever the files hold.
pub proof fn lemma_file_of_equal_length_is_not_gathered(
    w: World,
    exclude: Seq<Seq<char>>,
    local_root: Seq<char>,
    remote_root: Seq<char>,
    n: nat,
    local: Seq<char>,
    len: u64,
)
    requires
        (w.measure)(local) == Ok::<Option<u64>, Seq<char>>(Some(len)),
        forall|j: nat|
            j < n && (#[trigger] drive(
                w,
                initial(exclude, local_root, remote_root),
                j,
            )).phase is AwaitProbe && drive(
                w,
                initial(exclude, local_root, remote_root),
                j,
            ).phase->AwaitProbe_local == local ==> drive(
                w,
                initial(exclude, local_root, remote_root),
                j,
            ).phase->AwaitProbe_size == len,
    ensures
        forall|i: int|
            0 <= i < drive(w, initial(exclude, local_root, remote_root), n).work.len() ==> (
            #[trigger] drive(w, initial(exclude, local_root, remote_root), n).work[i]).local
                != local,
{
    let s = initial(exclude, local_root, remote_root);
    let events = answers(w, s, n);
    lemma_drive_is_a_run(w, s, n);
    assert forall|j: int| 0 <= j < events.len() implies !(calls_for_copy(
        run(s, #[trigger] events.take(j)),
        events[j],
    ) && run(s, events.take(j)).phase->AwaitProbe_local == local) by {
        assert(events.take(j) =~= answers(w, s, j as nat));
        lemma_drive_is_a_run(w, s, j as nat);
        let at = drive(w, s, j as nat);
        assert(events[j] == answer(w, at.phase));
    }
    assert forall|i: int| 0 <= i < drive(w, s, n).work.len() implies (#[trigger] drive(
        w,
        s,
        n,
    ).work[i]).local != local by {
        lemma_only_stale_files_are_listed(s, events, i);
        let j = choose|j: int| #[trigger] found_stale_at(s, events, j, run(s, events).work[i]);
        assert(calls_for_copy(run(s, events.take(j)), events[j]));
    }
}

/// The walk in state `r` asks to create the local directory `local`, as the
/// mirror of `remote`, and the descent into it from there is complete within
/// `depth`.
pub open spec fn about_to_enter(
    w: World,
    r: WalkState,
    local: Seq<char>,
    remote: Seq<char>,
    depth: nat,
) -> bool {
    &&& r.phase == PhaseView::AwaitDir { local, remote }
    &&& descend(w, r.exclude, local, remote, tally(r), depth) is Complete
}

/// A walk that is going through a listing whose descent is complete comes,
/// when driven by the world, to ask for the local mirror of each directory of
/// the listing from its next entry on that has a name and is not excluded.
/// The result is the number of requests until then.
pub proof fn lemma_listed_directory_is_asked_for(w: World, s: WalkState, depth: nat, i: int) -> (n:
    nat)
    requires
        s.stack.len() > 0,
        0 <= s.stack.last().next <= i < s.stack.last().entries.len(),
        descend_entries(
            w,
            s.exclude,
            s.stack.last().local,
            s.stack.last().remote,
            s.stack.last().entries,
            s.stack.last().next,
            tally(s),
            depth,
        ) is Complete,
        verdict(s.exclude, s.stack.last().entries[i]) is Descend,
    ensures
        depth > 0,
        drive(w, advance(s), n).exclude == s.exclude,
        about_to_enter(
            w,
            drive(w, advance(s), n),
            joined(s.stack.last().local, s.stack.last().entries[i].name.unwrap()),
            joined(s.stack.last().remote, s.stack.last().entries[i].name.unwrap()),
            (depth - 1) as nat,
        ),
    decreases i - s.stack.last().next,
{
    let f = s.stack.last();
    let e = f.entries[f.next];
    let t = moved_on(s);
    assert(t.stack.drop_last() =~= s.stack.drop_last());
    assert(t.stack.last() == FrameView { next: f.next + 1, ..f });
    match verdict(s.exclude, e) {
        Verdict::Unnamed => {
            let s1 = noted(t, ReportKind::SkipUnnamed, e.path);
            lemma_listed_directory_is_asked_for(w, s1, depth, i)
        },
        Verdict::Excluded => {
            let s1 = noted(t, ReportKind::SkipExcluded, e.name.unwrap());
            lemma_listed_directory_is_asked_for(w, s1, depth, i)
        },
        Verdict::SizeUnknown => {
            let path = joined(f.remote, e.name.unwrap());
            let s1 = noted(
                noted(t, ReportKind::Checking, path),
                ReportKind::SkipSizeUnknown,
                path,
            );
            lemma_listed_directory_is_asked_for(w, s1, depth, i)
        },
        Verdict::Descend => {
            let a = advance(s);
            assert(tally(a) == tally(s));
            if f.next == i {
                0
            } else {
                let below = descend(
                    w,
                    s.exclude,
                    joined(f.local, e.name.unwrap()),
                    joined(f.remote, e.name.unwrap()),
                    tally(s),
                    (depth - 1) as nat,
                );
                let n1 = lemma_directory_follows_descent(w, a, (depth - 1) as nat);
                let s2 = resumed(s.exclude, a.stack, below->Complete_0);
                let n2 = lemma_listed_directory_is_asked_for(w, s2, depth, i);
                lemma_drive_in_two(w, a, n1, n2);
                n1 + n2
            }
        },
        Verdict::Compare(size) => {
            let a = advance(s);
            let path = joined(f.remote, e.name.unwrap());
            let target = joined(f.local, e.name.unwrap());
            let len = (w.measure)(target)->Ok_0;
            let a1 = step(a, answer(w, a.phase));
            assert(drive(w, a, 1) == drive(w, a1, 0));
            let s2 = WalkState {
                work: if stale(size, len) {
                    a.work.push(PairView { remote: path, local: target })
                } else {
                    a.work
                },
                phase: PhaseView::Done,
                ..a
            };
            assert(a1 == advance(s2));
            let n2 = lemma_listed_directory_is_asked_for(w, s2, depth, i);
            lemma_drive_in_two(w, a, 1, n2);
            n2 + 1
        },
    }
}

/// A walk that is about to enter a directory whose descent is complete comes,
/// when driven by the world, to ask for the local mirror of every directory
/// below it that listed, not excluded directory names lead to. The result is
/// the number of requests until then, and the depth left from there.
pub proof fn lemma_directory_below_is_asked_for(
    w: World,
    s: WalkState,
    depth: nat,
    trail: Seq<Seq<char>>,
) -> (at: (nat, nat))
    requires
        s.phase is AwaitDir,
        about_to_enter(w, s, s.phase->AwaitDir_local, s.phase->AwaitDir_remote, depth),
        leads_down(w, s.exclude, s.phase->AwaitDir_remote, trail),
    ensures
        drive(w, s, at.0).exclude == s.exclude,
        about_to_enter(
            w,
            drive(w, s, at.0),
            descended(s.phase->AwaitDir_local, trail),
            descended(s.phase->AwaitDir_remote, trail),
            at.1,
        ),
    decreases trail.len(),
{
    if trail.len() == 0 {
        (0, depth)
    } else {
        let up = trail.drop_last();
        let above = lemma_directory_below_is_asked_for(w, s, depth, up);
        let r = drive(w, s, above.0);
        let local = descended(s.phase->AwaitDir_local, up);
        let remote = descended(s.phase->AwaitDir_remote, up);
        let entries = (w.list)(remote)->Ok_0;
        let i = choose|i: int|
            0 <= i < entries.len() && verdict(s.exclude, #[trigger] entries[i]) is Descend
                && entries[i].name == Some(trail.last());
        let r1 = step(r, answer(w, r.phase));
        assert(r1 == WalkState {
            phase: PhaseView::AwaitListing { local, remote },
            ..noted(r, ReportKind::Scanning, remote)
        });
        let r3 = WalkState {
            stack: r1.stack.push(FrameView { local, remote, entries, next: 0 }),
            phase: PhaseView::Done,
            ..r1
        };
        assert(drive(w, r, 2) == advance(r3)) by {
            assert(drive(w, r, 2) == drive(w, r1, 1));
            assert(drive(w, r1, 1) == drive(w, step(r1, answer(w, r1.phase)), 0));
        }
        assert(tally(r3) == told(tally(r), ReportKind::Scanning, remote));
        let m = lemma_listed_directory_is_asked_for(w, r3, above.1, i);
        lemma_drive_in_two(w, r, 2, m);
        lemma_drive_in_two(w, s, above.0, 2 + m);
        (above.0 + 2 + m, (above.1 - 1) as nat)
    }
}

/// Every directory is mirrored. Where the descent from the roots is complete,
/// the walk, driven by the same world, asks for the local mirror of every
/// remote directory that listed, not excluded directory names lead to, at the
/// path that the same names lead to from the local root, whether or not that
/// directory exists already, and the world answers that it is there. The
/// result is the number of requests until the walk asks.
pub proof fn lemma_every_directory_is_mirrored(
    w: World,
    exclude: Seq<Seq<char>>,
    local_root: Seq<char>,
    remote_root: Seq<char>,
    depth: nat,
    trail: Seq<Seq<char>>,
) -> (n: nat)
    requires
        descend(
            w,
            exclude,
            local_root,
            remote_root,
            Tally { work: Seq::empty(), reports: Seq::empty() },
            depth,
        ) is Complete,
        leads_down(w, exclude, remote_root, trail),
    ensures
        drive(w, initial(exclude, local_root, remote_root), n).phase == (PhaseView::AwaitDir {
            local: descended(local_root, trail),
            remote: descended(remote_root, trail),
        }),
        (w.ensure)(descended(local_root, trail)) is None,
{
    let s = initial(exclude, local_root, remote_root);
    let at = lemma_directory_below_is_asked_for(w, s, depth, trail);
    at.0
}

/// `pair` holds the paths of a stale file: the `i`th entry of the directory
/// that `trail` leads to from the roots is a file with a name that is not
/// excluded, and is missing locally or has another length locally than
/// remotely.
pub open spec fn stale_file_at(
    w: World,
    exclude: Seq<Seq<char>>,
    local_root: Seq<char>,
    remote_root: Seq<char>,
    trail: Seq<Seq<char>>,
    i: int,
    pair: PairView,
) -> bool {
    let local = descended(local_root, trail);
    let remote = descended(remote_root, trail);
    &&& leads_down(w, exclude, remote_root, trail)
    &&& (w.list)(remote) is Ok
    &&& 0 <= i < (w.list)(remote)->Ok_0.len()
    &&& verdict(exclude, (w.list)(remote)->Ok_0[i]) is Compare
    &&& (w.measure)(joined(local, (w.list)(remote)->Ok_0[i].name.unwrap())) is Ok
    &&& stale(
        verdict(exclude, (w.list)(remote)->Ok_0[i])->Compare_0,
        (w.measure)(joined(local, (w.list)(remote)->Ok_0[i].name.unwrap()))->Ok_0,
    )
    &&& pair == PairView {
        remote: joined(remote, (w.list)(remote)->Ok_0[i].name.unwrap()),
        local: joined(local, (w.list)(remote)->Ok_0[i].name.unwrap()),
    }
}

/// Stepping into `name` first and following `trail` from there is following
/// `name` and then `trail`.
pub proof fn lemma_descended_from_child(root: Seq<char>, name: Seq<char>, trail: Seq<Seq<char>>)
    ensures
        descended(root, seq![name] + trail) == descended(joined(root, name), trail),
    decreases trail.len(),
{
    let whole = seq![name] + trail;
    if trail.len() == 0 {
        assert(whole.drop_last() =~= Seq::<Seq<char>>::empty());
        assert(descended(root, whole.drop_last()) == root);
    } else {
        lemma_descended_from_child(root, name, trail.drop_last());
        assert(whole.drop_last() =~= seq![name] + trail.drop_last());
        assert(whole.last() == trail.last());
    }
}

/// A trail that leads down from a listed directory leads down from the
/// directory that lists it, with that directory's name put first.
pub proof fn lemma_leads_down_from_child(
    w: World,
    exclude: Seq<Seq<char>>,
    remote: Seq<char>,
    name: Seq<char>,
    trail: Seq<Seq<char>>,
)
    requires
        holds_directory(w, exclude, remote, name),
        leads_down(w, exclude, joined(remote, name), trail),
    ensures
        leads_down(w, exclude, remote, seq![name] + trail),
    decreases trail.len(),
{
    let whole = seq![name] + trail;
    if trail.len() == 0 {
        assert(whole.drop_last() =~= Seq::<Seq<char>>::empty());
        assert(whole.last() == name);
        assert(leads_down(w, exclude, remote, whole.drop_last()));
        assert(descended(remote, whole.drop_last()) == remote);
    } else {
        lemma_leads_down_from_child(w, exclude, remote, name, trail.drop_last());
        lemma_descended_from_child(remote, name, trail.drop_last());
        assert(whole.drop_last() =~= seq![name] + trail.drop_last());
        assert(whole.last() == trail.last());
    }
}

/// Only stale files are gathered, into a directory. Every pair that the
/// complete descent into a directory adds to the work list is that of a
/// stale file in that directory or below it. The result is the trail to the
/// file's directory and the place of the file in its listing.
pub proof fn lemma_gathered_in_directory_is_stale(
    w: World,
    exclude: Seq<Seq<char>>,
    local: Seq<char>,
    remote: Seq<char>,
    t: Tally,
    depth: nat,
    p: int,
) -> (at: (Seq<Seq<char>>, int))
    requires
        descend(w, exclude, local, remote, t, depth) is Complete,
        t.work.len() <= p < descend(w, exclude, local, remote, t, depth)->Complete_0.work.len(),
    ensures
        stale_file_at(
            w,
            exclude,
            local,
            remote,
            at.0,
            at.1,
            descend(w, exclude, local, remote, t, depth)->Complete_0.work[p],
        ),
    decreases depth, 1nat, 0nat,
{
    lemma_gathered_in_listing_is_stale(
        w,
        exclude,
        local,
        remote,
        (w.list)(remote)->Ok_0,
        0,
        told(t, ReportKind::Scanning, remote),
        depth,
        p,
    )
}

/// Only stale files are gathered, through a listing. Every pair that the
/// complete descent through the listing of a directory adds to the work list
/// is that of a stale file in that directory or below it. The result is the
/// trail to the file's directory and the place of the file in its listing.
pub proof fn lemma_gathered_in_listing_is_stale(
    w: World,
    exclude: Seq<Seq<char>>,
    local: Seq<char>,
    remote: Seq<char>,
    entries: Seq<EntryView>,
    k: int,
    t: Tally,
    depth: nat,
    p: int,
) -> (at: (Seq<Seq<char>>, int))
    requires
        0 <= k,
        (w.list)(remote) == Ok::<Seq<EntryView>, Seq<char>>(entries),
        descend_entries(w, exclude, local, remote, entries, k, t, depth) is Complete,
        t.work.len() <= p < descend_entries(
            w,
            exclude,
            local,
            remote,
            entries,
            k,
            t,
            depth,
        )->Complete_0.work.len(),
    ensures
        stale_file_at(
            w,
            exclude,
            local,
            remote,
            at.0,
            at.1,
            descend_entries(w, exclude, local, remote, entries, k, t, depth)->Complete_0.work[p],
        ),
    decreases depth, 0nat, (if 0 <= k < entries.len() { entries.len() - k } else { 0 }),
{
    let e = entries[k];
    let none = Seq::<Seq<char>>::empty();
    match verdict(exclude, e) {
        Verdict::Unnamed => {
            lemma_gathered_in_listing_is_stale(
                w,
                exclude,
                local,
                remote,
                entries,
                k + 1,
                told(t, ReportKind::SkipUnnamed, e.path),
                depth,
                p,
            )
        },
        Verdict::Excluded => {
            lemma_gathered_in_listing_is_stale(
                w,
                exclude,
                local,
                remote,
                entries,
                k + 1,
                told(t, ReportKind::SkipExcluded, e.name.unwrap()),
                depth,
                p,
            )
        },
        Verdict::SizeUnknown => {
            let path = joined(remote, e.name.unwrap());
            lemma_gathered_in_listing_is_stale(
                w,
                exclude,
                local,
                remote,
                entries,
                k + 1,
                told(told(t, ReportKind::Checking, path), ReportKind::SkipSizeUnknown, path),
                depth,
                p,
            )
        },
        Verdict::Compare(size) => {
            let path = joined(remote, e.name.unwrap());
            let target = joined(local, e.name.unwrap());
            let t1 = after_measuring(t, path, target, size, (w.measure)(target)->Ok_0);
            lemma_entries_keep_work(w, exclude, local, remote, entries, k + 1, t1, depth);
            if p < t1.work.len() {
                assert(descended(local, none) == local && descended(remote, none) == remote);
                assert(leads_down(w, exclude, remote, none));
                (none, k)
            } else {
                lemma_gathered_in_listing_is_stale(
                    w,
                    exclude,
                    local,
                    remote,
                    entries,
                    k + 1,
                    t1,
                    depth,
                    p,
                )
            }
        },
        Verdict::Descend => {
            let name = e.name.unwrap();
            let below = descend(
                w,
                exclude,
                joined(local, name),
                joined(remote, name),
                t,
                (depth - 1) as nat,
            );
            let t1 = below->Complete_0;
            lemma_entries_keep_work(w, exclude, local, remote, entries, k + 1, t1, depth);
            if p < t1.work.len() {
                let inner = lemma_gathered_in_directory_is_stale(
                    w,
                    exclude,
                    joined(local, name),
                    joined(remote, name),
                    t,
                    (depth - 1) as nat,
                    p,
                );
                assert(holds_directory(w, exclude, remote, name)) by {
                    assert(verdict(exclude, (w.list)(remote)->Ok_0[k]) is Descend);
                }
                lemma_leads_down_from_child(w, exclude, remote, name, inner.0);
                lemma_descended_from_child(local, name, inner.0);
                lemma_descended_from_child(remote, name, inner.0);
                (seq![name] + inner.0, inner.1)
            } else {
                lemma_gathered_in_listing_is_stale(
                    w,
                    exclude,
                    local,
                    remote,
                    entries,
                    k + 1,
                    t1,
                    depth,
                    p,
                )
            }
        },
    }
}

/// The walk computes the recursive descent. Where the descent from the roots
/// ends within some depth, the walk, driven by the same world, ends after
/// finitely many requests in the same way. Where the descent is complete, the
/// walk yields the work list of the descent, and has given its notices, in
/// the same order. Where a request fails, the walk yields that failure and no
/// work list. The result is the number of requests.
pub proof fn lemma_walk_follows_descent(
    w: World,
    exclude: Seq<Seq<char>>,
    local_root: Seq<char>,
    remote_root: Seq<char>,
    depth: nat,
) -> (n: nat)
    ensures
        match descend(
            w,
            exclude,
            local_root,
            remote_root,
            Tally { work: Seq::empty(), reports: Seq::empty() },
            depth,
        ) {
            Descent::Complete(t) => {
                &&& outcome_of(drive(w, initial(exclude, local_root, remote_root), n)) == Ok::<
                    Seq<PairView>,
                    SyncErrorView,
                >(t.work)
                &&& drive(w, initial(exclude, local_root, remote_root), n).reports == t.reports
            },
            Descent::Failed(m) => outcome_of(
                drive(w, initial(exclude, local_root, remote_root), n),
            ) == Err::<Seq<PairView>, SyncErrorView>(SyncErrorView::Fatal(m)),
            Descent::TooDeep => true,
        },
{
    let s = initial(exclude, local_root, remote_root);
    lemma_directory_follows_descent(w, s, depth)
}

} // verus!
