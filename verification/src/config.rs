//! Configuration values the commands consume.  Loading and merging the
//! configuration files happens outside the crate.

use vstd::prelude::*;

verus! {

/// How dotfiles are linked into place.
#[derive(Debug, Clone, Copy, PartialEq, Eq, Structural)]
pub enum LinkType {
    /// Symbolic links.
    Symbolic,
    /// Hard links.
    Hard,
}

impl LinkType {
    pub fn is_symbolic(&self) -> (r: bool)
        ensures
            r == (*self == LinkType::Symbolic),
    {
        matches!(self, LinkType::Symbolic)
    }

    pub fn is_hard(&self) -> (r: bool)
        ensures
            r == (*self == LinkType::Hard),
    {
        matches!(self, LinkType::Hard)
    }
}

} // verus!
