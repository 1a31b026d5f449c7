//! The shell-completions command: the core holds no state; emitting the
//! completion script is the caller's side effect.

use vstd::prelude::*;

verus! {

/// The completions command.
#[derive(Debug, Clone, PartialEq, Eq, Structural)]
pub struct Completions {}

impl Completions {
    /// Builds the command.
    pub fn new() -> (r: Completions)
        ensures
            r == (Completions {}),
    {
        Completions {}
    }
}

} // verus!
