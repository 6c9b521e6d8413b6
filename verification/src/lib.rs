//! One-way mirroring of a remote directory tree onto a local one: the rules
//! that decide which directories are visited, which files are stale, and what
//! is reported, kept apart from the transport and the file system.

pub mod order;
pub mod exclusion;
pub mod paths;
pub mod entry;
pub mod walker;
pub mod machine;
pub mod sync;
pub mod transfer;
pub mod laws;
pub mod descent;
