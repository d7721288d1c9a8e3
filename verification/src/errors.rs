//! The failure taxonomy shared by every component of the library.

use vstd::prelude::*;

verus! {

/// A record list (or a byte stream spelling one) that cannot become a
/// snapshot.
#[derive(Clone, Copy, Debug, PartialEq, Eq, Structural)]
pub enum ValidationError {
    /// The record list is empty.
    EmptyLayout,
    /// A record references a child id that no record in the list carries.
    MissingChild { node: u64, child: u64 },
    /// The byte stream does not spell a record list in the chosen format.
    Malformed,
}

/// A violation detected before any live mutation is attempted.
#[derive(Clone, Copy, Debug, PartialEq, Eq, Structural)]
pub enum PreconditionError {
    /// The first record of the snapshot is not a workspace.
    WorkspaceMissing,
    /// A live workspace node carries no workspace number.
    WorkspaceNumberMissing { node: u64 },
    /// A live node has a type the snapshot cannot describe.
    UnsupportedNodeType { node: u64 },
    /// A live node has a layout mode the snapshot cannot describe.
    UnsupportedLayout { node: u64 },
}

/// Live state that no longer matches what an operation needs.
#[derive(Clone, Copy, Debug, PartialEq, Eq, Structural)]
pub enum LiveStateError {
    /// No workspace with this number exists in the live tree.
    WorkspaceNotFound { workspace_num: i32 },
    /// The live parent of this node cannot be found.
    ParentNotFound { node: u64 },
    /// No workspace in the live list reports itself focused.
    NoFocusedWorkspace,
}

/// Everything that can go wrong inside the library.
///
/// Stream I/O failures (`IOError` in the design taxonomy) never arise here:
/// the library only ever computes over byte vectors and plain values, so that
/// class of failure stays with the caller that reads and writes streams.
#[derive(Clone, Copy, Debug, PartialEq, Eq, Structural)]
pub enum Error {
    /// A malformed snapshot or byte stream.
    Validation(ValidationError),
    /// A violated precondition; nothing was mutated.
    Precondition(PreconditionError),
    /// A live node or workspace that disappeared.
    LiveState(LiveStateError),
    /// The external manager rejected a command issued to this node.
    Command { node: u64 },
}

} // verus!
