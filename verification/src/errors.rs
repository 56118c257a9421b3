//! The error kinds the library raises.

use vstd::prelude::*;

verus! {

/// What can go wrong in the core.
///
/// `Bind` is raised when the listener address is unavailable or missing;
/// `Io` stands for a truncated or failed read or write of a round; `Protocol`
/// marks a malformed frame (unknown address family, refused lengths). Errors
/// of a round never taint the store: inserts already committed remain.
#[derive(Clone, Copy, Debug, PartialEq, Eq, Structural)]
pub enum SwarmError {
    Bind,
    Io,
    Protocol,
}

} // verus!
