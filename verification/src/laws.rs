//! What holds of every walk and of every transfer phase.

use vstd::prelude::*;
use crate::entry::{stale, verdict, Verdict};
use crate::machine::{outcome_of, SyncErrorView};
use crate::paths::{descended, joined};
use crate::transfer::{failures_among, FailureView};
use crate::walker::{
    advance, initial, moved_on, noted, step, top_remaining, EventView, PairView, PhaseView,
    ReportKind, WalkState,
};

verus! {

/// None of the names in `trail` is excluded.
pub open spec fn admissible(exclude: Seq<Seq<char>>, trail: Seq<Seq<char>>) -> bool {
    forall|i: int| 0 <= i < trail.len() ==> !exclude.contains(#[trigger] trail[i])
}

/// `local` and `remote` are the two roots followed by the same names, none of
/// which is excluded.
pub open spec fn reached(
    exclude: Seq<Seq<char>>,
    local_root: Seq<char>,
    remote_root: Seq<char>,
    local: Seq<char>,
    remote: Seq<char>,
) -> bool {
    exists|trail: Seq<Seq<char>>| #[trigger]
        admissible(exclude, trail) && local == descended(local_root, trail) && remote
            == descended(remote_root, trail)
}

/// Every directory on the stack and every pair of the work list lies below
/// the roots by names that are not excluded.
pub open spec fn clean_within(s: WalkState, local_root: Seq<char>, remote_root: Seq<char>) -> bool {
    &&& forall|i: int|
        0 <= i < s.stack.len() ==> reached(
            s.exclude,
            local_root,
            remote_root,
            (#[trigger] s.stack[i]).local,
            s.stack[i].remote,
        )
    &&& forall|i: int|
        0 <= i < s.work.len() ==> reached(
            s.exclude,
            local_root,
            remote_root,
            (#[trigger] s.work[i]).local,
            s.work[i].remote,
        )
}

/// Every path that the walk holds (on its stack, in its work list, in the
/// request it waits on) lies below the roots by names that are not excluded.
pub open spec fn clean(s: WalkState, local_root: Seq<char>, remote_root: Seq<char>) -> bool {
    &&& clean_within(s, local_root, remote_root)
    &&& match s.phase {
        PhaseView::AwaitDir { local, remote } => reached(
            s.exclude,
            local_root,
            remote_root,
            local,
            remote,
        ),
        PhaseView::AwaitListing { local, remote } => reached(
            s.exclude,
            local_root,
            remote_root,
            local,
            remote,
        ),
        PhaseView::AwaitProbe { remote, local, size } => reached(
            s.exclude,
            local_root,
            remote_root,
            local,
            remote,
        ),
        _ => true,
    }
}

/// The state after a sequence of answers, the first answer first.
pub open spec fn run(s: WalkState, events: Seq<EventView>) -> WalkState
    decreases events.len(),
{
    if events.len() == 0 {
        s
    } else {
        step(run(s, events.drop_last()), events.last())
    }
}

/// The answer tells of a file that is missing locally or has another length
/// than the remote one that the walk asked about.
pub open spec fn calls_for_copy(s: WalkState, ev: EventView) -> bool {
    match (s.phase, ev) {
        (PhaseView::AwaitProbe { remote, local, size }, EventView::Probed(len)) => stale(size, len),
        _ => false,
    }
}

/// A path below the roots stays below them when a name that is not excluded
/// is added to it.
pub proof fn lemma_reached_child(
    exclude: Seq<Seq<char>>,
    local_root: Seq<char>,
    remote_root: Seq<char>,
    local: Seq<char>,
    remote: Seq<char>,
    name: Seq<char>,
)
    requires
        reached(exclude, local_root, remote_root, local, remote),
        !exclude.contains(name),
    ensures
        reached(exclude, local_root, remote_root, joined(local, name), joined(remote, name)),
{
    let trail = choose|trail: Seq<Seq<char>>| #[trigger]
        admissible(exclude, trail) && local == descended(local_root, trail) && remote
            == descended(remote_root, trail);
    let longer = trail.push(name);
    assert(longer.drop_last() =~= trail);
    assert(longer.last() == name);
    assert(admissible(exclude, longer));
    assert(descended(local_root, longer) == joined(local, name));
    assert(descended(remote_root, longer) == joined(remote, name));
}

/// Going through the listings adds nothing to the work list, keeps the
/// excluded names, and ends with the walk done or with a directory to create
/// or a file to measure.
pub proof fn lemma_advance_keeps_work(s: WalkState)
    ensures
        advance(s).work == s.work,
        advance(s).exclude == s.exclude,
        advance(s).phase is Done || advance(s).phase is AwaitDir || advance(s).phase is AwaitProbe,
    decreases s.stack.len(), top_remaining(s),
{
    if s.stack.len() > 0 {
        let f = s.stack.last();
        if !(0 <= f.next < f.entries.len()) {
            lemma_advance_keeps_work(WalkState { stack: s.stack.drop_last(), ..s });
        } else {
            let e = f.entries[f.next];
            let t = moved_on(s);
            match verdict(s.exclude, e) {
                Verdict::Unnamed => {
                    lemma_advance_keeps_work(noted(t, ReportKind::SkipUnnamed, e.path));
                },
                Verdict::Excluded => {
                    lemma_advance_keeps_work(noted(t, ReportKind::SkipExcluded, e.name.unwrap()));
                },
                Verdict::SizeUnknown => {
                    let path = joined(f.remote, e.name.unwrap());
                    lemma_advance_keeps_work(
                        noted(
                            noted(t, ReportKind::Checking, path),
                            ReportKind::SkipSizeUnknown,
                            path,
                        ),
                    );
                },
                _ => {},
            }
        }
    }
}

/// Going through the listings never leads below an excluded name.
pub proof fn lemma_advance_stays_clean(s: WalkState, local_root: Seq<char>, remote_root: Seq<char>)
    requires
        clean_within(s, local_root, remote_root),
    ensures
        clean(advance(s), local_root, remote_root),
    decreases s.stack.len(), top_remaining(s),
{
    if s.stack.len() > 0 {
        let f = s.stack.last();
        if !(0 <= f.next < f.entries.len()) {
            lemma_advance_stays_clean(
                WalkState { stack: s.stack.drop_last(), ..s },
                local_root,
                remote_root,
            );
        } else {
            let e = f.entries[f.next];
            let t = moved_on(s);
            assert(clean_within(t, local_root, remote_root)) by {
                assert forall|i: int| 0 <= i < t.stack.len() implies reached(
                    t.exclude,
                    local_root,
                    remote_root,
                    (#[trigger] t.stack[i]).local,
                    t.stack[i].remote,
                ) by {
                    assert(t.stack[i].local == s.stack[i].local);
                    assert(t.stack[i].remote == s.stack[i].remote);
                }
            }
            assert(reached(s.exclude, local_root, remote_root, f.local, f.remote));
            match verdict(s.exclude, e) {
                Verdict::Unnamed => {
                    lemma_advance_stays_clean(
                        noted(t, ReportKind::SkipUnnamed, e.path),
                        local_root,
                        remote_root,
                    );
                },
                Verdict::Excluded => {
                    lemma_advance_stays_clean(
                        noted(t, ReportKind::SkipExcluded, e.name.unwrap()),
                        local_root,
                        remote_root,
                    );
                },
                Verdict::SizeUnknown => {
                    let path = joined(f.remote, e.name.unwrap());
                    lemma_advance_stays_clean(
                        noted(
                            noted(t, ReportKind::Checking, path),
                            ReportKind::SkipSizeUnknown,
                            path,
                        ),
                        local_root,
                        remote_root,
                    );
                },
                Verdict::Descend => {
                    lemma_reached_child(
                        s.exclude,
                        local_root,
                        remote_root,
                        f.local,
                        f.remote,
                        e.name.unwrap(),
                    );
                },
                Verdict::Compare(size) => {
                    lemma_reached_child(
                        s.exclude,
                        local_root,
                        remote_root,
                        f.local,
                        f.remote,
                        e.name.unwrap(),
                    );
                },
            }
        }
    }
}

/// An excluded entry is passed over: the walk goes on as if the entry had not
/// been listed, but for the notice. It is not entered, not measured, and adds
/// nothing to the work list.
pub proof fn lemma_excluded_entry_is_passed_over(s: WalkState)
    requires
        s.stack.len() > 0,
        0 <= s.stack.last().next < s.stack.last().entries.len(),
        s.stack.last().entries[s.stack.last().next].name is Some,
        s.exclude.contains(s.stack.last().entries[s.stack.last().next].name.unwrap()),
    ensures
        advance(s) == advance(
            noted(
                moved_on(s),
                ReportKind::SkipExcluded,
                s.stack.last().entries[s.stack.last().next].name.unwrap(),
            ),
        ),
{
}

/// A named file that is not excluded and has a length is held against its
/// local counterpart, at the path of the same name in the local directory.
pub proof fn lemma_file_is_measured(s: WalkState, name: Seq<char>, size: u64)
    requires
        s.stack.len() > 0,
        0 <= s.stack.last().next < s.stack.last().entries.len(),
        s.stack.last().entries[s.stack.last().next].name == Some(name),
        !s.stack.last().entries[s.stack.last().next].is_dir,
        s.stack.last().entries[s.stack.last().next].size == Some(size),
        !s.exclude.contains(name),
    ensures
        advance(s).phase == (PhaseView::AwaitProbe {
            remote: joined(s.stack.last().remote, name),
            local: joined(s.stack.last().local, name),
            size,
        }),
{
}

/// What an answer does to the work list. A file that is measured joins the
/// list, as its last pair, exactly when it has no local counterpart or one of
/// another length; one of the same length does not join it, whatever it holds.
/// No other answer changes the list.
pub proof fn lemma_step_work(s: WalkState, ev: EventView)
    ensures
        calls_for_copy(s, ev) ==> s.phase is AwaitProbe && step(s, ev).work == s.work.push(
            PairView { remote: s.phase->AwaitProbe_remote, local: s.phase->AwaitProbe_local },
        ),
        !calls_for_copy(s, ev) ==> step(s, ev).work == s.work,
        step(s, ev).exclude == s.exclude,
{
    match (s.phase, ev) {
        (PhaseView::Done, _) => {},
        (PhaseView::Failed(_), _) => {},
        (_, EventView::Failed(m)) => {},
        (PhaseView::AwaitDir { local, remote }, EventView::DirReady) => {},
        (PhaseView::AwaitListing { local, remote }, EventView::Listed(entries)) => {
            lemma_advance_keeps_work(
                WalkState {
                    stack: s.stack.push(
                        crate::walker::FrameView { local, remote, entries, next: 0 },
                    ),
                    phase: PhaseView::Done,
                    ..s
                },
            );
        },
        (PhaseView::AwaitProbe { remote, local, size }, EventView::Probed(len)) => {
            lemma_advance_keeps_work(
                WalkState {
                    work: if stale(size, len) {
                        s.work.push(PairView { remote, local })
                    } else {
                        s.work
                    },
                    phase: PhaseView::Done,
                    ..s
                },
            );
        },
        _ => {},
    }
}

/// A named file that is not excluded and has a length joins the work list
/// exactly when it has no local counterpart or one of another length. It
/// joins as the pair of its remote and its local path, after the pairs found
/// before it.
pub proof fn lemma_file_is_copied_iff_stale(
    s: WalkState,
    name: Seq<char>,
    size: u64,
    local_len: Option<u64>,
)
    requires
        s.stack.len() > 0,
        0 <= s.stack.last().next < s.stack.last().entries.len(),
        s.stack.last().entries[s.stack.last().next].name == Some(name),
        !s.stack.last().entries[s.stack.last().next].is_dir,
        s.stack.last().entries[s.stack.last().next].size == Some(size),
        !s.exclude.contains(name),
    ensures
        step(advance(s), EventView::Probed(local_len)).work == if stale(size, local_len) {
            s.work.push(
                PairView {
                    remote: joined(s.stack.last().remote, name),
                    local: joined(s.stack.last().local, name),
                },
            )
        } else {
            s.work
        },
{
    lemma_file_is_measured(s, name, size);
    lemma_advance_keeps_work(s);
    lemma_step_work(advance(s), EventView::Probed(local_len));
}

/// The work list only grows at its end: the pairs found so far stay, in their
/// order, whatever is answered afterwards.
pub proof fn lemma_work_only_grows(s: WalkState, events: Seq<EventView>)
    ensures
        s.work.len() <= run(s, events).work.len(),
        run(s, events).work.take(s.work.len() as int) == s.work,
    decreases events.len(),
{
    if events.len() == 0 {
        assert(s.work.take(s.work.len() as int) =~= s.work);
    } else {
        lemma_work_only_grows(s, events.drop_last());
        let before = run(s, events.drop_last());
        lemma_step_work(before, events.last());
        assert(run(s, events).work.take(s.work.len() as int) =~= before.work.take(
            s.work.len() as int,
        ));
    }
}

/// A file found stale stays in the work list. Once the walk has measured a
/// file and learnt that it is missing locally or has another length, the pair
/// of its paths is in the work list, at the place where it joined, whatever
/// is answered afterwards.
pub proof fn lemma_stale_file_stays_listed(
    s: WalkState,
    local_len: Option<u64>,
    later: Seq<EventView>,
)
    requires
        s.phase is AwaitProbe,
        stale(s.phase->AwaitProbe_size, local_len),
    ensures
        s.work.len() < run(step(s, EventView::Probed(local_len)), later).work.len(),
        run(step(s, EventView::Probed(local_len)), later).work[s.work.len() as int] == (PairView {
            remote: s.phase->AwaitProbe_remote,
            local: s.phase->AwaitProbe_local,
        }),
{
    let t = step(s, EventView::Probed(local_len));
    lemma_step_work(s, EventView::Probed(local_len));
    lemma_work_only_grows(t, later);
    assert(run(t, later).work.take(t.work.len() as int)[s.work.len() as int] == run(
        t,
        later,
    ).work[s.work.len() as int]);
}

/// The `j`th answer of a run told of a stale file, and `pair` holds the paths
/// of that file.
pub open spec fn found_stale_at(s: WalkState, events: Seq<EventView>, j: int, pair: PairView) -> bool {
    &&& 0 <= j < events.len()
    &&& calls_for_copy(run(s, events.take(j)), events[j])
    &&& pair == PairView {
        remote: run(s, events.take(j)).phase->AwaitProbe_remote,
        local: run(s, events.take(j)).phase->AwaitProbe_local,
    }
}

/// Only stale files are listed. Every pair that joins the work list in the
/// course of a run is that of a file which the walk measured and found
/// missing locally, or of another length than the remote one. A file of the
/// same length joins by no other way.
pub proof fn lemma_only_stale_files_are_listed(s: WalkState, events: Seq<EventView>, i: int)
    requires
        s.work.len() <= i < run(s, events).work.len(),
    ensures
        exists|j: int| #[trigger] found_stale_at(s, events, j, run(s, events).work[i]),
    decreases events.len(),
{
    if events.len() > 0 {
        let shorter = events.drop_last();
        let before = run(s, shorter);
        lemma_step_work(before, events.last());
        assert(events.take(events.len() - 1) =~= shorter);
        if i < before.work.len() {
            lemma_only_stale_files_are_listed(s, shorter, i);
            let j = choose|j: int| #[trigger] found_stale_at(s, shorter, j, before.work[i]);
            assert(shorter.take(j) =~= events.take(j));
            assert(found_stale_at(s, events, j, run(s, events).work[i]));
        } else {
            assert(found_stale_at(s, events, events.len() - 1, run(s, events).work[i]));
        }
    }
}

/// The walk is asked to hold the remote file `remote`, or any remote file
/// against the local file `local`.
pub open spec fn measures(s: WalkState, remote: Seq<char>, local: Seq<char>) -> bool {
    s.phase is AwaitProbe && (s.phase->AwaitProbe_remote == remote || s.phase->AwaitProbe_local
        == local)
}

/// A file of equal length is not listed. Where every measurement that
/// concerns the remote file `remote` or the local file `local` finds the local
/// length equal to the remote one, no pair that joins the work list in the
/// run names either of them, whatever the two files hold.
pub proof fn lemma_up_to_date_file_is_not_listed(
    s: WalkState,
    events: Seq<EventView>,
    remote: Seq<char>,
    local: Seq<char>,
)
    requires
        forall|j: int|
            0 <= j < events.len() && measures(run(s, #[trigger] events.take(j)), remote, local)
                ==> !calls_for_copy(run(s, events.take(j)), events[j]),
    ensures
        forall|i: int|
            s.work.len() <= i < run(s, events).work.len() ==> (#[trigger] run(
                s,
                events,
            ).work[i]).remote != remote && run(s, events).work[i].local != local,
{
    assert forall|i: int| s.work.len() <= i < run(s, events).work.len() implies (#[trigger] run(
        s,
        events,
    ).work[i]).remote != remote && run(s, events).work[i].local != local by {
        lemma_only_stale_files_are_listed(s, events, i);
        let j = choose|j: int| #[trigger] found_stale_at(s, events, j, run(s, events).work[i]);
        assert(calls_for_copy(run(s, events.take(j)), events[j]));
    }
}

/// A failure is final. Once a request has failed, the walk yields that
/// failure and no work list, whatever it is told afterwards.
pub proof fn lemma_failure_is_final(s: WalkState, reason: Seq<char>, events: Seq<EventView>)
    requires
        !(s.phase is Done),
        !(s.phase is Failed),
    ensures
        outcome_of(run(step(s, EventView::Failed(reason)), events)) == Err::<
            Seq<PairView>,
            SyncErrorView,
        >(SyncErrorView::Fatal(reason)),
        run(step(s, EventView::Failed(reason)), events) == step(s, EventView::Failed(reason)),
    decreases events.len(),
{
    if events.len() > 0 {
        lemma_failure_is_final(s, reason, events.drop_last());
    }
}

/// A remote directory is listed only after its local counterpart was ensured:
/// the walk asks for a listing only as the answer to `DirReady`.
pub proof fn lemma_listed_only_after_ensured(s: WalkState, ev: EventView)
    requires
        step(s, ev).phase is AwaitListing,
        !(s.phase is AwaitListing),
    ensures
        ev == EventView::DirReady,
        s.phase == (PhaseView::AwaitDir {
            local: step(s, ev).phase->AwaitListing_local,
            remote: step(s, ev).phase->AwaitListing_remote,
        }),
{
    match (s.phase, ev) {
        (PhaseView::AwaitProbe { remote, local, size }, EventView::Probed(len)) => {
            lemma_advance_keeps_work(
                WalkState {
                    work: if stale(size, len) {
                        s.work.push(PairView { remote, local })
                    } else {
                        s.work
                    },
                    phase: PhaseView::Done,
                    ..s
                },
            );
        },
        _ => {},
    }
}

/// No answer leads the walk below an excluded name.
pub proof fn lemma_step_stays_clean(
    s: WalkState,
    ev: EventView,
    local_root: Seq<char>,
    remote_root: Seq<char>,
)
    requires
        clean(s, local_root, remote_root),
    ensures
        clean(step(s, ev), local_root, remote_root),
{
    match (s.phase, ev) {
        (PhaseView::Done, _) => {},
        (PhaseView::Failed(_), _) => {},
        (_, EventView::Failed(m)) => {},
        (PhaseView::AwaitDir { local, remote }, EventView::DirReady) => {},
        (PhaseView::AwaitListing { local, remote }, EventView::Listed(entries)) => {
            let t = WalkState {
                stack: s.stack.push(crate::walker::FrameView { local, remote, entries, next: 0 }),
                phase: PhaseView::Done,
                ..s
            };
            assert forall|i: int| 0 <= i < t.stack.len() implies reached(
                t.exclude,
                local_root,
                remote_root,
                (#[trigger] t.stack[i]).local,
                t.stack[i].remote,
            ) by {
                if i < s.stack.len() {
                    assert(t.stack[i] == s.stack[i]);
                }
            }
            lemma_advance_stays_clean(t, local_root, remote_root);
        },
        (PhaseView::AwaitProbe { remote, local, size }, EventView::Probed(len)) => {
            let t = WalkState {
                work: if stale(size, len) {
                    s.work.push(PairView { remote, local })
                } else {
                    s.work
                },
                phase: PhaseView::Done,
                ..s
            };
            assert forall|i: int| 0 <= i < t.work.len() implies reached(
                t.exclude,
                local_root,
                remote_root,
                (#[trigger] t.work[i]).local,
                t.work[i].remote,
            ) by {
                if i < s.work.len() {
                    assert(t.work[i] == s.work[i]);
                }
            }
            lemma_advance_stays_clean(t, local_root, remote_root);
        },
        _ => {},
    }
}

/// Exclusion holds at every depth. Whatever the outside world answers, every
/// local directory that a walk asks to create, every remote directory that it
/// asks to list, every file that it measures and every pair of its work list
/// lies below the roots by the same names, none of which is excluded: an
/// excluded entry and all below it are never mirrored and never copied.
pub proof fn lemma_excluded_names_are_never_reached(
    exclude: Seq<Seq<char>>,
    local_root: Seq<char>,
    remote_root: Seq<char>,
    events: Seq<EventView>,
)
    ensures
        clean(run(initial(exclude, local_root, remote_root), events), local_root, remote_root),
        run(initial(exclude, local_root, remote_root), events).exclude == exclude,
    decreases events.len(),
{
    let start = initial(exclude, local_root, remote_root);
    if events.len() == 0 {
        let none = Seq::<Seq<char>>::empty();
        assert(admissible(exclude, none));
        assert(descended(local_root, none) == local_root);
        assert(descended(remote_root, none) == remote_root);
        assert(reached(exclude, local_root, remote_root, local_root, remote_root));
    } else {
        lemma_excluded_names_are_never_reached(
            exclude,
            local_root,
            remote_root,
            events.drop_last(),
        );
        let before = run(start, events.drop_last());
        lemma_step_stays_clean(before, events.last(), local_root, remote_root);
        lemma_step_work(before, events.last());
    }
}

/// A second run finds nothing to copy. In a walk where every file that is
/// measured has the length that the remote side reports, as it has after a
/// run whose copies all succeeded and with nothing changed since, the work
/// list stays empty.
pub proof fn lemma_up_to_date_tree_gives_no_work(
    exclude: Seq<Seq<char>>,
    local_root: Seq<char>,
    remote_root: Seq<char>,
    events: Seq<EventView>,
)
    requires
        forall|i: int|
            0 <= i < events.len() ==> !calls_for_copy(
                run(initial(exclude, local_root, remote_root), #[trigger] events.take(i)),
                events[i],
            ),
    ensures
        run(initial(exclude, local_root, remote_root), events).work == Seq::<PairView>::empty(),
    decreases events.len(),
{
    let start = initial(exclude, local_root, remote_root);
    if events.len() > 0 {
        let shorter = events.drop_last();
        assert forall|i: int| 0 <= i < shorter.len() implies !calls_for_copy(
            run(start, #[trigger] shorter.take(i)),
            shorter[i],
        ) by {
            assert(shorter.take(i) =~= events.take(i));
        }
        lemma_up_to_date_tree_gives_no_work(exclude, local_root, remote_root, shorter);
        assert(events.take(events.len() - 1) =~= shorter);
        lemma_step_work(run(start, shorter), events.last());
    }
}

/// A failed copy hides no other. Among the notices for the first `n` copies,
/// each copy that failed has its own, with its pair and its reason, whatever
/// became of the others; and each notice is that of a copy that failed.
pub proof fn lemma_failures_are_isolated(
    work: Seq<PairView>,
    outcomes: Seq<Option<Seq<char>>>,
    n: int,
)
    requires
        0 <= n <= work.len(),
        n <= outcomes.len(),
    ensures
        forall|i: int|
            0 <= i < n && (#[trigger] outcomes[i]) is Some ==> failures_among(
                work,
                outcomes,
                n,
            ).contains(FailureView { pair: work[i], reason: outcomes[i].unwrap() }),
        forall|k: int|
            0 <= k < failures_among(work, outcomes, n).len() ==> exists|i: int|
                0 <= i < n && outcomes[i] == Some(
                    (#[trigger] failures_among(work, outcomes, n)[k]).reason,
                ) && work[i] == failures_among(work, outcomes, n)[k].pair,
        failures_among(work, outcomes, n).len() <= n,
    decreases n,
{
    if n > 0 {
        lemma_failures_are_isolated(work, outcomes, n - 1);
        let before = failures_among(work, outcomes, n - 1);
        let all = failures_among(work, outcomes, n);
        assert forall|i: int| 0 <= i < n && (#[trigger] outcomes[i]) is Some implies all.contains(
            FailureView { pair: work[i], reason: outcomes[i].unwrap() },
        ) by {
            let want = FailureView { pair: work[i], reason: outcomes[i].unwrap() };
            if i < n - 1 {
                assert(before.contains(want));
                let k = choose|k: int| 0 <= k < before.len() && before[k] == want;
                assert(all[k] == want);
            } else {
                assert(all[all.len() - 1] == want);
            }
        }
        assert forall|k: int| 0 <= k < all.len() implies exists|i: int|
            0 <= i < n && outcomes[i] == Some((#[trigger] all[k]).reason) && work[i]
                == all[k].pair by {
            if k < before.len() {
                assert(all[k] == before[k]);
                let i = choose|i: int|
                    0 <= i < n - 1 && outcomes[i] == Some(before[k].reason) && work[i]
                        == before[k].pair;
                assert(0 <= i < n && outcomes[i] == Some(all[k].reason) && work[i] == all[k].pair);
            } else {
                assert(outcomes[n - 1] == Some(all[k].reason) && work[n - 1] == all[k].pair);
            }
        }
    }
}

} // verus!
