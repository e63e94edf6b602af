//! What a file descriptor stands for.

use vstd::prelude::*;

verus! {

/// A file that a process has open: the console, or an entry in the list of open regular files.
/// Processes that have the same entry share the place of the next read or write.
#[derive(Copy, Clone, PartialEq, Eq, Structural, Debug)]
pub enum FileRef {
    Stdin,
    Stdout,
    Inode(usize),
}

/// The descriptors with which a process starts: input, output, and output for errors.
pub open spec fn first_files() -> Seq<Option<FileRef>> {
    seq![Some(FileRef::Stdin), Some(FileRef::Stdout), Some(FileRef::Stdout)]
}

} // verus!
