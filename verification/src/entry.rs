//! What a remote listing tells of one entry, and the verdict on it.

use vstd::prelude::*;
use crate::exclusion::ExclusionSet;

verus! {

/// One item of a remote directory listing.
#[derive(Clone, Debug, PartialEq, Eq)]
pub struct RemoteEntry {
    /// The entry's path as the listing gives it. It is shown in the notice of
    /// an entry without a usable name, and decides nothing.
    pub path: String,
    /// The entry's bare name; `None` where it cannot be told or written as text.
    pub name: Option<String>,
    /// Whether the entry is a directory.
    pub is_dir: bool,
    /// The length in bytes that the remote side reports, if it reports one.
    pub size: Option<u64>,
}

/// A listing item as plain values.
pub ghost struct EntryView {
    pub path: Seq<char>,
    pub name: Option<Seq<char>>,
    pub is_dir: bool,
    pub size: Option<u64>,
}

impl View for RemoteEntry {
    type V = EntryView;

    open spec fn view(&self) -> EntryView {
        EntryView {
            path: self.path@,
            name: match self.name {
                Some(n) => Some(n@),
                None => None,
            },
            is_dir: self.is_dir,
            size: self.size,
        }
    }
}

/// The entries of a listing as plain values, in the order listed.
pub open spec fn entries_of(v: Seq<RemoteEntry>) -> Seq<EntryView> {
    Seq::new(v.len(), |i: int| v[i]@)
}

/// What the walk does with one entry.
#[derive(Clone, Copy, Debug, PartialEq, Eq, Structural)]
pub enum Verdict {
    /// The entry has no usable name: it is passed over.
    Unnamed,
    /// The entry's name is excluded: it is passed over, with all below it.
    Excluded,
    /// The entry is a directory to walk into.
    Descend,
    /// The entry is a file of unknown length: it is passed over.
    SizeUnknown,
    /// The entry is a file of this length, to be held against the local one.
    Compare(u64),
}

/// The verdict on an entry under a set of excluded names. The tests are made
/// in this order: the name, the exclusion, the kind, the size.
pub open spec fn verdict(exclude: Seq<Seq<char>>, e: EntryView) -> Verdict {
    match e.name {
        None => Verdict::Unnamed,
        Some(n) => if exclude.contains(n) {
            Verdict::Excluded
        } else if e.is_dir {
            Verdict::Descend
        } else {
            match e.size {
                None => Verdict::SizeUnknown,
                Some(s) => Verdict::Compare(s),
            }
        },
    }
}

/// Decides what the walk does with `entry`.
pub fn classify(exclude: &ExclusionSet, entry: &RemoteEntry) -> (v: Verdict)
    requires
        exclude.wf(),
    ensures
        v == verdict(exclude@, entry@),
{
    match &entry.name {
        None => Verdict::Unnamed,
        Some(n) => {
            if exclude.contains(n.as_str()) {
                Verdict::Excluded
            } else if entry.is_dir {
                Verdict::Descend
            } else {
                match entry.size {
                    None => Verdict::SizeUnknown,
                    Some(s) => Verdict::Compare(s),
                }
            }
        },
    }
}

/// A file is stale when it has no local counterpart, or one of another length.
/// Equal lengths count as equal content.
pub open spec fn stale(remote_size: u64, local_len: Option<u64>) -> bool {
    match local_len {
        None => true,
        Some(n) => n != remote_size,
    }
}

/// Whether a remote file of `remote_size` bytes must be copied, given the
/// length of its local counterpart, `None` where there is none.
pub fn is_stale(remote_size: u64, local_len: Option<u64>) -> (b: bool)
    ensures
        b == stale(remote_size, local_len),
{
    match local_len {
        None => true,
        Some(n) => n != remote_size,
    }
}

} // verus!
