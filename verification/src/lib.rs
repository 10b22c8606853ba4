//! A verified planner for overlaying one directory tree onto another with
//! symbolic links.
//!
//! The library works on a snapshot of the relevant filesystem state (the
//! [`model::Fs`] type): every file, directory and symbolic link is an entry
//! keyed by its path, a path being the sequence of its components. The
//! planner [`merge::generate_symlinks`] walks the source tree in that
//! snapshot, decides for every entry whether the mirrored target path is
//! linked, replaced or left alone, mutates the snapshot accordingly, and
//! returns the removals and link creations it performed, in order, so a
//! caller can replay them against a real filesystem.

pub mod keep;
pub mod merge;
pub mod model;
pub mod paths;

pub use crate::merge::generate_symlinks;
pub use crate::merge::Action;
pub use crate::merge::MergeError;
pub use crate::merge::Overwrite;
