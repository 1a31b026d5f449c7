//! Plain argument payloads of the command line: the selection globs and the
//! per-command switches.  Argument parsing itself happens outside the crate.

use vstd::prelude::*;

use crate::config::LinkType;
use crate::helpers;

verus! {

/// The items to process, as glob patterns.
#[derive(Debug, Clone, PartialEq, Default)]
pub struct Dots {
    pub dots: Vec<String>,
}

/// A selection glob rooted at the virtual tree root: already-rooted patterns
/// stay as they are, all others gain a leading `/`.
pub open spec fn spec_rooted(s: Seq<char>) -> Seq<char> {
    if s.len() > 0 && s[0] == '/' {
        s
    } else {
        seq!['/'] + s
    }
}

impl Dots {
    /// Roots every selection glob at the virtual tree root.
    pub fn add_root(&self) -> (r: Self)
        ensures
            r.dots@.len() == self.dots@.len(),
            forall|i: int|
                0 <= i < self.dots@.len() ==> (#[trigger] r.dots@[i])@ == spec_rooted(
                    self.dots@[i]@,
                ),
    {
        proof {
            reveal_strlit("/");
        }
        let mut out: Vec<String> = Vec::new();
        let mut i: usize = 0;
        while i < self.dots.len()
            invariant
                i <= self.dots@.len(),
                out@.len() == i,
                forall|j: int|
                    0 <= j < i ==> (#[trigger] out@[j])@ == spec_rooted(self.dots@[j]@),
            decreases self.dots@.len() - i,
        {
            let d = self.dots[i].as_str();
            let rooted = if d.unicode_len() > 0 && d.get_char(0) == '/' {
                self.dots[i].clone()
            } else {
                let r = helpers::str_concat("/", d);
                proof {
                    reveal_strlit("/");
                    assert("/"@ =~= seq!['/']);
                    assert(r@ =~= seq!['/'] + d@);
                }
                r
            };
            out.push(rooted);
            i = i + 1;
        }
        Dots { dots: out }
    }
}

/// Arguments of the link command.
#[derive(Debug, Clone, PartialEq)]
pub struct LinkRaw {
    /// The items to link.
    pub dots: Dots,
    /// Force link creation when the target already exists.
    pub force: bool,
    /// Which link type to use, overriding the configuration.
    pub link_type: Option<LinkType>,
}

/// Arguments of the install command.
#[derive(Debug, Clone, PartialEq)]
pub struct InstallRaw {
    /// The items to install.
    pub dots: Dots,
    /// Continue with the remaining items when a command fails.
    pub continue_on_error: bool,
    /// Do not install generic dependencies.
    pub skip_dependencies: bool,
    /// Do not install installation dependencies.
    pub skip_installation_dependencies: bool,
    /// Do not install any dependencies.
    pub skip_all_dependencies: bool,
}

} // verus!
