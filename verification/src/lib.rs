//! Layout snapshot and restoration for a tiling window manager that is
//! reachable only through an imperative command protocol and a point-in-time
//! tree query.
//!
//! The library captures a live window-tree subtree into a flat, validated
//! [`snapshot::SavedLayout`], encodes and decodes it as a binary or text byte
//! stream, and plans the command sequence that recreates the saved hierarchy
//! and geometry inside a live tree.  Everything that talks to the manager's
//! socket stays with the caller: the restore engine is driven step by step,
//! handing out one query, command or pause at a time and consuming the
//! caller's answers.

pub mod autolayout;
pub mod binfmt;
pub mod capture;
pub mod codec;
pub mod errors;
pub mod livetree;
pub mod restore;
pub mod snapshot;
pub mod tabmode;
pub mod textfmt;
