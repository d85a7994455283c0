//! Identifiers and tags shared by the module tree and the crate graph.
use vstd::prelude::*;

verus! {

/// Handle of a file known to the host. The number carries no meaning of its
/// own; two handles denote the same file exactly when they are equal.
#[derive(Clone, Copy, Debug, PartialEq, Eq, Hash, PartialOrd, Ord, Structural)]
pub struct FileId(pub u32);

/// Key of a source root: a set of files treated as one compilation boundary.
#[derive(Clone, Copy, Debug, PartialEq, Eq, Hash, PartialOrd, Ord, Structural)]
pub struct SourceRootId(pub u32);

/// Dialect tag attached to each crate.
#[derive(Clone, Copy, Debug, PartialEq, Eq, Hash, Structural)]
pub enum Edition {
    Edition2015,
    Edition2018,
}

} // verus!
