//! Resolution core for declarative dotfile specifications.
//!
//! A specification tree holds one "dot" document per item.  Each document maps
//! selector groups (operating system plus attribute predicates) to capability
//! blocks (links, install command, dependencies).  This crate parses selector
//! strings, canonicalizes the capability blocks that apply in the current
//! environment through a merge algebra, cascades directory-scoped defaults,
//! canonicalizes dependency names into a virtual absolute namespace, and plans
//! dependency-ordered installation with cycle detection.
//!
//! Everything that touches the outside world (file reading, template
//! rendering, process spawning) stays outside this crate; callers hand in
//! plain values and receive plain values back.

use vstd::prelude::*;

pub mod cli;
pub mod commands;
pub mod config;
pub mod dot;
pub mod glob;
pub mod helpers;

verus! {

/// Serialization format of a specification document.
#[derive(Debug, Clone, Copy, PartialEq, Eq, Structural)]
pub enum FileFormat {
    Yaml,
    Toml,
    Json,
}

impl FileFormat {
    /// Maps a file extension to its format: `yaml` and `yml` are YAML,
    /// `toml` is TOML, `json` is JSON.
    pub fn try_from(value: &str) -> (r: Option<FileFormat>)
        ensures
            r == spec_format_of_extension(value@),
    {
        if crate::helpers::str_eq(value, "yaml") || crate::helpers::str_eq(value, "yml") {
            Some(FileFormat::Yaml)
        } else if crate::helpers::str_eq(value, "toml") {
            Some(FileFormat::Toml)
        } else if crate::helpers::str_eq(value, "json") {
            Some(FileFormat::Json)
        } else {
            None
        }
    }
}

/// Which format a file extension denotes, if any.
pub open spec fn spec_format_of_extension(ext: Seq<char>) -> Option<FileFormat> {
    if ext == "yaml"@ || ext == "yml"@ {
        Some(FileFormat::Yaml)
    } else if ext == "toml"@ {
        Some(FileFormat::Toml)
    } else if ext == "json"@ {
        Some(FileFormat::Json)
    } else {
        None
    }
}

} // verus!
