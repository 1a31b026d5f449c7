//! The command cores that consume resolved items.

pub mod completions;
pub mod install;
