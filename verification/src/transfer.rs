//! The transfer phase: how one copy proceeds, and what is told of one that
//! failed. Each pair of the work list is copied on its own; a failure is
//! reported once, is not tried again, and touches no other pair.

use vstd::prelude::*;
use crate::walker::{pairs_of, PairView, TransferPair};

verus! {

/// The length of the buffer through which a file is streamed: 128 KiB.
pub const BUFFER_SIZE: usize = 131072;

/// What a copy does after a read.
#[derive(Clone, Copy, Debug, PartialEq, Eq, Structural)]
pub enum CopyStep {
    /// Write this many bytes from the start of the buffer, all of them, then
    /// read again.
    Write(usize),
    /// The remote file has been read to its end: the copy is complete.
    Finish,
}

/// Decides how a copy goes on after a read that gave `bytes_read` bytes. A
/// read of nothing marks the end of the file.
pub fn after_read(bytes_read: usize) -> (s: CopyStep)
    ensures
        s == if bytes_read == 0 {
            CopyStep::Finish
        } else {
            CopyStep::Write(bytes_read)
        },
{
    if bytes_read == 0 {
        CopyStep::Finish
    } else {
        CopyStep::Write(bytes_read)
    }
}

/// The notice of a copy that failed.
#[derive(Clone, Debug, PartialEq, Eq)]
pub struct CopyFailure {
    pub remote_path: String,
    pub local_path: String,
    pub reason: String,
}

/// A failure notice as plain values.
pub ghost struct FailureView {
    pub pair: PairView,
    pub reason: Seq<char>,
}

impl View for CopyFailure {
    type V = FailureView;

    open spec fn view(&self) -> FailureView {
        FailureView {
            pair: PairView { remote: self.remote_path@, local: self.local_path@ },
            reason: self.reason@,
        }
    }
}

/// The failure notices of a list as plain values, in order.
pub open spec fn failures_of(v: Seq<CopyFailure>) -> Seq<FailureView> {
    Seq::new(v.len(), |i: int| v[i]@)
}

/// How the copies ended, as plain values: `None` for one that succeeded, the
/// reason for one that failed.
pub open spec fn outcomes_of(v: Seq<Option<String>>) -> Seq<Option<Seq<char>>> {
    Seq::new(
        v.len(),
        |i: int|
            match v[i] {
                Some(m) => Some(m@),
                None => None,
            },
    )
}

/// The notice, if any, that the outcome of one copy calls for.
pub open spec fn settled(pair: PairView, outcome: Option<Seq<char>>) -> Option<FailureView> {
    match outcome {
        None => None,
        Some(reason) => Some(FailureView { pair, reason }),
    }
}

/// The notices that the first `n` copies call for, in the order of the work
/// list: one for each copy that failed, none for the others. Outcomes beyond
/// the end of the work list, and pairs without an outcome, give none.
pub open spec fn failures_among(
    work: Seq<PairView>,
    outcomes: Seq<Option<Seq<char>>>,
    n: int,
) -> Seq<FailureView>
    decreases n,
{
    if n <= 0 {
        Seq::empty()
    } else {
        let before = failures_among(work, outcomes, n - 1);
        if n <= work.len() && n <= outcomes.len() && outcomes[n - 1] is Some {
            before.push(FailureView { pair: work[n - 1], reason: outcomes[n - 1].unwrap() })
        } else {
            before
        }
    }
}

/// Turns the outcome of one copy into the notice it calls for: none for a
/// copy that succeeded, one with both paths and the reason for one that failed.
pub fn settle(pair: &TransferPair, outcome: Option<String>) -> (r: Option<CopyFailure>)
    ensures
        match (r, outcome) {
            (None, None) => true,
            (Some(f), Some(m)) => f@ == (FailureView { pair: pair@, reason: m@ }),
            _ => false,
        },
{
    match outcome {
        None => None,
        Some(reason) => Some(
            CopyFailure {
                remote_path: pair.remote_path.clone(),
                local_path: pair.local_path.clone(),
                reason,
            },
        ),
    }
}

/// Gathers the notices for a whole work list from the outcomes of its copies,
/// `outcomes[i]` being that of `work[i]`. The call itself cannot fail.
pub fn settle_all(work: &Vec<TransferPair>, outcomes: Vec<Option<String>>) -> (r: Vec<CopyFailure>)
    ensures
        failures_of(r@) == failures_among(
            pairs_of(work@),
            outcomes_of(outcomes@),
            outcomes.len() as int,
        ),
{
    let mut out: Vec<CopyFailure> = Vec::new();
    let mut i: usize = 0;
    assert(failures_of(out@) =~= Seq::empty());
    while i < outcomes.len()
        invariant
            0 <= i <= outcomes.len(),
            failures_of(out@) == failures_among(pairs_of(work@), outcomes_of(outcomes@), i as int),
        decreases outcomes.len() - i,
    {
        let ghost before = failures_of(out@);
        if i < work.len() {
            match &outcomes[i] {
                Some(m) => {
                    let f = CopyFailure {
                        remote_path: work[i].remote_path.clone(),
                        local_path: work[i].local_path.clone(),
                        reason: m.clone(),
                    };
                    out.push(f);
                    assert(failures_of(out@) =~= before.push(
                        FailureView { pair: work@[i as int]@, reason: m@ },
                    ));
                },
                None => {},
            }
        }
        i += 1;
    }
    out
}

} // verus!
