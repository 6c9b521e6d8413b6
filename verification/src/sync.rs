//! One run: what is mirrored onto what, and how the run begins.

use vstd::prelude::*;
use crate::exclusion::{listed, sorted, ExclusionSet};
use crate::machine::{SyncError, SyncErrorView, Walker};
use crate::walker::initial;

verus! {

/// The parameters of one run: the local root, the remote root and the names
/// to pass over.
pub struct SftpSync {
    exclude: ExclusionSet,
    local_directory: String,
    remote_directory: String,
}

impl SftpSync {
    /// The excluded names are in lexicographic order.
    pub open spec fn wf(&self) -> bool {
        sorted(self.excluded())
    }

    /// The excluded names, in order.
    pub closed spec fn excluded(&self) -> Seq<Seq<char>> {
        self.exclude@
    }

    /// The local root.
    pub closed spec fn local_root(&self) -> Seq<char> {
        self.local_directory@
    }

    /// The remote root.
    pub closed spec fn remote_root(&self) -> Seq<char> {
        self.remote_directory@
    }

    /// Sets up a run. The names to exclude may be absent and come in any
    /// order; they are kept in lexicographic order, each as often as listed.
    pub fn new(exclude: Option<Vec<String>>, local_directory: &str, remote_directory: &str) -> (r:
        SftpSync)
        ensures
            r.wf(),
            sorted(r.excluded()),
            r.excluded().to_multiset() == listed(exclude).to_multiset(),
            r.excluded().len() == listed(exclude).len(),
            forall|n: Seq<char>| r.excluded().contains(n) <==> listed(exclude).contains(n),
            r.local_root() == local_directory@,
            r.remote_root() == remote_directory@,
    {
        let set = ExclusionSet::new(exclude);
        SftpSync {
            exclude: set,
            local_directory: local_directory.to_owned(),
            remote_directory: remote_directory.to_owned(),
        }
    }

    /// The excluded names.
    pub fn exclude(&self) -> (r: &ExclusionSet)
        ensures
            r@ == self.excluded(),
            r.wf() == self.wf(),
    {
        &self.exclude
    }

    /// Begins the run. The local root must exist already: where it does not,
    /// the run fails before anything is asked of the remote side. Where it
    /// does, the walk starts at the two roots.
    pub fn sync_local_directory(self, local_root_exists: bool) -> (r: Result<Walker, SyncError>)
        requires
            self.wf(),
        ensures
            match r {
                Ok(w) => local_root_exists && w.wf() && w@ == initial(
                    self.excluded(),
                    self.local_root(),
                    self.remote_root(),
                ),
                Err(e) => !local_root_exists && e@ == SyncErrorView::LocalRootMissing(
                    self.local_root(),
                ),
            },
    {
        if !local_root_exists {
            return Err(SyncError::LocalRootMissing(self.local_directory));
        }
        Ok(Walker::start(self.exclude, self.local_directory, self.remote_directory))
    }
}

} // verus!
