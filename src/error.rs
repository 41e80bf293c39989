use vstd::prelude::*;

verus! {

/// What can go wrong while sizing files or walking a tree.
#[derive(Debug)]
pub enum TreeError {
    /// A negative rounding precision was given to the size formatter.
    InvalidArgument,
    /// A directory could not be listed or a file's metadata could not be read;
    /// the field names the failing path and the cause.
    IOFailure(String),
}

} // verus!
