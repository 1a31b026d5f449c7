//! The dot model: raw capability documents, their canonical form, defaults
//! cascading, and the per-item resolution that callers consume.

use vstd::prelude::*;

pub mod defaults;
pub mod repr;

pub use repr::Merge;

use crate::helpers::{self, Os};
use repr::selector::AttributeValues;
use repr::{
    caps_to_dot, doc_entries_view, links_map, links_entries_view, opt_caps_model, opt_caps_wf,
    spec_canonicalize, spec_keys_ok, spec_parsed_doc, CapabilitiesCanonical, CapsModel,
    DotCanonical, DotComplex, InstallsCanonical, InstallsModel, ParseError,
};

verus! {

/// The resolved install field of one item: the command to run and the
/// dependencies to install first.
#[derive(Debug, Clone, PartialEq)]
pub struct Installs {
    pub cmd: String,
    pub depends: Vec<String>,
}

impl Installs {
    /// Converts a canonical install field: an explicit disable yields no
    /// install at all.
    pub fn from_canonical(from: InstallsCanonical) -> (r: Option<Installs>)
        ensures
            match from {
                InstallsCanonical::Disabled(_) => r is None,
                InstallsCanonical::Full { cmd, depends } => r == Some(Installs { cmd, depends }),
            },
    {
        match from {
            InstallsCanonical::Disabled(_) => None,
            InstallsCanonical::Full { cmd, depends } => Some(Installs { cmd, depends }),
        }
    }
}

/// One fully resolved item: its links, its install command with install
/// dependencies, and its generic dependencies.
#[derive(Debug, Clone, PartialEq, Default)]
pub struct Dot {
    pub links: Option<Vec<(String, Vec<String>)>>,
    pub installs: Option<Installs>,
    pub depends: Option<Vec<String>>,
}

impl View for Dot {
    type V = CapsModel;

    open spec fn view(&self) -> CapsModel {
        CapsModel {
            links: match self.links {
                None => None,
                Some(entries) => Some(links_map(links_entries_view(entries@))),
            },
            installs: match self.installs {
                None => None,
                Some(i) => Some(
                    InstallsModel::Present { cmd: i.cmd@, depends: i.depends.deep_view().to_set() },
                ),
            },
            depends: match self.depends {
                None => None,
                Some(d) => Some(d.deep_view().to_set()),
            },
        }
    }
}

impl Dot {
    /// Well-formedness: link keys distinct, every string list duplicate-free.
    pub open spec fn wf(self) -> bool {
        &&& match self.links {
            None => true,
            Some(entries) => repr::links_wf(entries@),
        }
        &&& match self.installs {
            None => true,
            Some(i) => repr::unique_seqs(i.depends.deep_view()),
        }
        &&& match self.depends {
            None => true,
            Some(d) => repr::unique_seqs(d.deep_view()),
        }
    }
}

/// Converts the canonicalization result into the resolved item shape: a
/// still-disabled install drops out, everything else is carried over.
fn dot_from_caps(caps: Option<CapabilitiesCanonical>) -> (r: Dot)
    requires
        opt_caps_wf(caps),
    ensures
        r@ == caps_to_dot(opt_caps_model(caps)),
        r.wf(),
{
    match caps {
        None => Dot { links: None, installs: None, depends: None },
        Some(c) => {
            let installs = match c.installs {
                None => None,
                Some(ic) => Installs::from_canonical(ic),
            };
            Dot { links: c.links, installs, depends: c.depends }
        },
    }
}

/// Resolves one raw document against the current system: parses its selector
/// keys, evaluates which groups apply under the rendered `values`, folds the
/// applying blocks onto the inherited `defaults`, and converts the result.
/// Broken selector keys are reported together; an attribute key without a
/// rendered value is a hard error, never a silently false predicate.
pub fn from_str_with_defaults(
    doc: DotComplex,
    defaults: Option<CapabilitiesCanonical>,
    current_os: Os,
    values: &AttributeValues,
) -> (r: Result<Dot, Vec<ParseError>>)
    requires
        opt_caps_wf(defaults),
    ensures
        spec_keys_ok(doc.filters@) ==> match spec_canonicalize(
            spec_parsed_doc(doc),
            current_os,
            values@,
            opt_caps_model(defaults),
        ) {
            Ok(m) => r is Ok && r->Ok_0@ == caps_to_dot(m) && r->Ok_0.wf(),
            Err(keys) => r is Err && r->Err_0@.len() == 1 && (r->Err_0@[0] matches
                ParseError::Render(ks) && ks.deep_view() == keys),
        },
        !spec_keys_ok(doc.filters@) ==> r is Err && r->Err_0@.len() >= 1,
{
    let ghost fv = doc.filters@;
    let canonical = match DotCanonical::try_from(doc) {
        Ok(c) => c,
        Err(errs) => {
            return Err(errs);
        },
    };
    proof {
        assert(canonical@ =~= spec_parsed_doc(doc)) by {
            assert(forall|i: int|
                0 <= i < fv.len() ==> #[trigger] doc_entries_view(canonical.selectors@)[i]
                    == spec_parsed_doc(doc)[i]);
        }
    }
    match CapabilitiesCanonical::from(canonical, current_os, values, defaults) {
        Ok(caps) => Ok(dot_from_caps(caps)),
        Err(keys) => {
            let mut errs: Vec<ParseError> = Vec::new();
            errs.push(ParseError::Render(keys));
            Err(errs)
        },
    }
}

impl Dot {
    /// Resolves one raw document with no inherited defaults.
    pub fn parse(doc: DotComplex, current_os: Os, values: &AttributeValues) -> (r: Result<
        Dot,
        Vec<ParseError>,
    >)
        ensures
            spec_keys_ok(doc.filters@) ==> match spec_canonicalize(
                spec_parsed_doc(doc),
                current_os,
                values@,
                None,
            ) {
                Ok(m) => r is Ok && r->Ok_0@ == caps_to_dot(m) && r->Ok_0.wf(),
                Err(keys) => r is Err && r->Err_0@.len() == 1 && (r->Err_0@[0] matches
                    ParseError::Render(ks) && ks.deep_view() == keys),
            },
            !spec_keys_ok(doc.filters@) ==> r is Err && r->Err_0@.len() >= 1,
    {
        from_str_with_defaults(doc, None, current_os, values)
    }
}

// ---------------------------------------------------------------------------
// Dependency canonicalization
// ---------------------------------------------------------------------------

/// What can go wrong while resolving an item after parsing.
#[derive(Debug, Clone, PartialEq)]
pub enum Error {
    /// The item's own name failed to absolutize.
    ParseName(String),
    /// A dependency path failed to absolutize; carries the joined path.
    ParseDependency(String),
    /// The document failed to parse; carries the item name and the errors.
    ParseDot(String, Vec<ParseError>),
    /// Rendering attribute values failed; carries the item name and the keys.
    RenderDot(String, Vec<String>),
}

/// The virtual absolute identity a dependency string resolves to from an
/// item rooted at `item_abs`: an absolute dependency stands alone, a
/// relative one is joined to the item's own directory.
pub open spec fn spec_resolve_dep(item_abs: Seq<char>, dep: Seq<char>) -> Option<Seq<char>> {
    if dep.len() > 0 && dep[0] == '/' {
        helpers::spec_absolutize(dep)
    } else {
        helpers::spec_absolutize(item_abs + seq!['/'] + dep)
    }
}

/// Resolves one dependency string against the item's absolute name.
fn resolve_dep(item_abs: &str, dep: &str) -> (r: Result<String, helpers::PathError>)
    ensures
        r is Ok <==> spec_resolve_dep(item_abs@, dep@) is Some,
        r is Ok ==> Some(r->Ok_0@) == spec_resolve_dep(item_abs@, dep@),
{
    proof {
        reveal_strlit("/");
    }
    let absolute = dep.unicode_len() > 0 && dep.get_char(0) == '/';
    if absolute {
        helpers::absolutize_virtually(dep)
    } else {
        let joined = helpers::str_concat(helpers::str_concat(item_abs, "/").as_str(), dep);
        proof {
            assert(joined@ =~= item_abs@ + seq!['/'] + dep@);
        }
        helpers::absolutize_virtually(joined.as_str())
    }
}

/// All dependency strings of `deps` resolve from `item_abs`.
pub open spec fn deps_resolvable(item_abs: Seq<char>, deps: Seq<Seq<char>>) -> bool {
    forall|i: int| 0 <= i < deps.len() ==> spec_resolve_dep(item_abs, #[trigger] deps[i]) is Some
}

/// The set of resolved identities of `deps` from `item_abs`.
pub open spec fn resolved_dep_set(item_abs: Seq<char>, deps: Seq<Seq<char>>) -> Set<Seq<char>> {
    deps.map_values(|d: Seq<char>| spec_resolve_dep(item_abs, d)->0).to_set()
}

/// An item resolves cleanly: its name absolutizes and every dependency
/// string, install-level and generic, resolves.
pub open spec fn spec_dot_ok(name: Seq<char>, d: Dot) -> bool {
    &&& helpers::spec_absolutize(name) is Some
    &&& match d.installs {
        None => true,
        Some(i) => deps_resolvable(
            helpers::spec_absolutize(name)->0,
            i.depends.deep_view(),
        ),
    }
    &&& match d.depends {
        None => true,
        Some(ds) => deps_resolvable(helpers::spec_absolutize(name)->0, ds.deep_view()),
    }
}

/// Resolves a list of dependency strings, de-duplicating the results.
fn resolve_deps(item_abs: &str, deps: &Vec<String>) -> (r: Result<Vec<String>, Error>)
    ensures
        r is Ok <==> deps_resolvable(item_abs@, deps.deep_view()),
        r is Ok ==> {
            &&& repr::unique_seqs(r->Ok_0.deep_view())
            &&& r->Ok_0.deep_view().to_set() == resolved_dep_set(item_abs@, deps.deep_view())
        },
        r is Err ==> r->Err_0 is ParseDependency,
{
    broadcast use vstd::prelude::Seq::lemma_push_map_commute;
    broadcast use vstd::prelude::Seq::lemma_push_to_set_commute;

    let ghost dv = deps.deep_view();
    let ghost f = |d: Seq<char>| spec_resolve_dep(item_abs@, d);
    let mut out: Vec<String> = Vec::new();
    let mut i: usize = 0;
    proof {
        assert(dv.take(0) =~~= Seq::<Seq<char>>::empty());
        assert(dv.take(0).map_values(|d: Seq<char>| spec_resolve_dep(item_abs@, d)->0)
            =~~= Seq::<Seq<char>>::empty());
        assert(out.deep_view().to_set() =~= dv.take(0).map_values(
            |d: Seq<char>| spec_resolve_dep(item_abs@, d)->0,
        ).to_set());
    }
    while i < deps.len()
        invariant
            i <= dv.len(),
            dv == deps.deep_view(),
            forall|m: int| 0 <= m < i ==> spec_resolve_dep(item_abs@, #[trigger] dv[m]) is Some,
            repr::unique_seqs(out.deep_view()),
            out.deep_view().to_set() == dv.take(i as int).map_values(
                |d: Seq<char>| spec_resolve_dep(item_abs@, d)->0,
            ).to_set(),
        decreases dv.len() - i,
    {
        let resolved = match resolve_dep(item_abs, deps[i].as_str()) {
            Ok(p) => p,
            Err(_) => {
                let joined = helpers::str_concat(
                    helpers::str_concat(item_abs, "/").as_str(),
                    deps[i].as_str(),
                );
                return Err(Error::ParseDependency(joined));
            },
        };
        proof {
            assert(dv.take(i + 1) =~~= dv.take(i as int).push(dv[i as int]));
            assert(dv.take(i + 1).map_values(|d: Seq<char>| spec_resolve_dep(item_abs@, d)->0)
                == dv.take(i as int).map_values(
                |d: Seq<char>| spec_resolve_dep(item_abs@, d)->0,
            ).push(resolved@));
        }
        let ghost rv = resolved@;
        let ghost mapped = dv.take(i as int).map_values(
            |d: Seq<char>| spec_resolve_dep(item_abs@, d)->0,
        );
        let present = repr::contains_str(&out, resolved.as_str());
        if !present {
            let ghost pre = out.deep_view();
            out.push(resolved);
            proof {
                assert(out.deep_view() =~~= pre.push(rv));
                pre.lemma_push_to_set_commute(rv);
                mapped.lemma_push_to_set_commute(rv);
                assert(out.deep_view().to_set() =~= dv.take(i + 1).map_values(
                    |d: Seq<char>| spec_resolve_dep(item_abs@, d)->0,
                ).to_set());
            }
        } else {
            proof {
                mapped.lemma_push_to_set_commute(rv);
                assert(out.deep_view().to_set().contains(rv));
                assert(out.deep_view().to_set() =~= dv.take(i + 1).map_values(
                    |d: Seq<char>| spec_resolve_dep(item_abs@, d)->0,
                ).to_set());
            }
        }
        i = i + 1;
    }
    proof {
        assert(dv.take(dv.len() as int) =~~= dv);
    }
    Ok(out)
}

/// Canonicalizes one resolved item: absolutizes its name and rewrites every
/// dependency string to its virtual absolute identity.
fn canonicalize_dot(name: String, dot: Dot) -> (r: Result<(String, Dot), Error>)
    requires
        dot.wf(),
    ensures
        (r is Ok) == spec_dot_ok(name@, dot),
        r is Err && helpers::spec_absolutize(name@) is None ==> (r->Err_0 matches Error::ParseName(
            n,
        ) && n@ == name@),
        r is Err && helpers::spec_absolutize(name@) is Some ==> r->Err_0 is ParseDependency,
        r is Ok ==> {
            let (out_name, out) = r->Ok_0;
            let abs = helpers::spec_absolutize(name@)->0;
            &&& out_name@ == abs
            &&& out.wf()
            &&& out@.links == dot@.links
            &&& (out.installs is Some) == (dot.installs is Some)
            &&& match (dot.installs, out.installs) {
                (Some(di), Some(oi)) => oi.cmd@ == di.cmd@ && oi.depends.deep_view().to_set()
                    == resolved_dep_set(abs, di.depends.deep_view()),
                _ => true,
            }
            &&& (out.depends is Some) == (dot.depends is Some)
            &&& match (dot.depends, out.depends) {
                (Some(dd), Some(od)) => od.deep_view().to_set() == resolved_dep_set(
                    abs,
                    dd.deep_view(),
                ),
                _ => true,
            }
        },
{
    let abs = match helpers::absolutize_virtually(name.as_str()) {
        Ok(a) => a,
        Err(_) => {
            return Err(Error::ParseName(name));
        },
    };
    let installs = match dot.installs {
        None => None,
        Some(i) => {
            let depends = match resolve_deps(abs.as_str(), &i.depends) {
                Ok(d) => d,
                Err(e) => {
                    return Err(e);
                },
            };
            Some(Installs { cmd: i.cmd, depends })
        },
    };
    let depends = match dot.depends {
        None => None,
        Some(ds) => {
            let resolved = match resolve_deps(abs.as_str(), &ds) {
                Ok(d) => d,
                Err(e) => {
                    return Err(e);
                },
            };
            Some(resolved)
        },
    };
    Ok((abs, Dot { links: dot.links, installs, depends }))
}

/// The number of items that do not resolve cleanly.
pub open spec fn spec_bad_count(s: Seq<(String, Dot)>) -> int
    decreases s.len(),
{
    if s.len() == 0 {
        0
    } else {
        spec_bad_count(s.drop_last()) + (if spec_dot_ok(s.last().0@, s.last().1) {
            0int
        } else {
            1int
        })
    }
}

/// Canonicalizes every resolved item, rewriting all dependency names into
/// the virtual absolute namespace so that references written differently in
/// different items compare equal.  Items that fail are reported together,
/// one error per broken item.
pub fn canonicalize_dots(dots: Vec<(String, Dot)>) -> (r: Result<
    Vec<(String, Dot)>,
    helpers::MultipleErrors<Error>,
>)
    requires
        forall|k: int| 0 <= k < dots@.len() ==> (#[trigger] dots@[k]).1.wf(),
    ensures
        (r is Ok) == (forall|k: int|
            0 <= k < dots@.len() ==> spec_dot_ok((#[trigger] dots@[k]).0@, dots@[k].1)),
        r is Ok ==> {
            let out = r->Ok_0;
            &&& out@.len() == dots@.len()
            &&& forall|k: int|
                0 <= k < dots@.len() ==> {
                    let abs = helpers::spec_absolutize(dots@[k].0@)->0;
                    &&& (#[trigger] out@[k]).0@ == abs
                    &&& out@[k].1.wf()
                    &&& out@[k].1@.links == dots@[k].1@.links
                    &&& (out@[k].1.installs is Some) == (dots@[k].1.installs is Some)
                    &&& match (dots@[k].1.installs, out@[k].1.installs) {
                        (Some(di), Some(oi)) => oi.cmd@ == di.cmd@
                            && oi.depends.deep_view().to_set() == resolved_dep_set(
                            abs,
                            di.depends.deep_view(),
                        ),
                        _ => true,
                    }
                    &&& (out@[k].1.depends is Some) == (dots@[k].1.depends is Some)
                    &&& match (dots@[k].1.depends, out@[k].1.depends) {
                        (Some(dd), Some(od)) => od.deep_view().to_set() == resolved_dep_set(
                            abs,
                            dd.deep_view(),
                        ),
                        _ => true,
                    }
                }
        },
        r is Err ==> r->Err_0.0@.len() == spec_bad_count(dots@) && r->Err_0.0@.len() >= 1,
{
    let ghost dv = dots@;
    let mut rest = dots;
    let mut out: Vec<(String, Dot)> = Vec::new();
    let mut errors: Vec<Error> = Vec::new();
    let ghost i: int = 0;
    while rest.len() > 0
        invariant
            0 <= i <= dv.len(),
            rest@ == dv.skip(i),
            forall|k: int| 0 <= k < dv.len() ==> (#[trigger] dv[k]).1.wf(),
            errors@.len() == 0 ==> {
                &&& out@.len() == i
                &&& forall|k: int| 0 <= k < i ==> spec_dot_ok((#[trigger] dv[k]).0@, dv[k].1)
                &&& forall|k: int|
                    0 <= k < i ==> {
                        let abs = helpers::spec_absolutize(dv[k].0@)->0;
                        &&& (#[trigger] out@[k]).0@ == abs
                        &&& out@[k].1.wf()
                        &&& out@[k].1@.links == dv[k].1@.links
                        &&& (out@[k].1.installs is Some) == (dv[k].1.installs is Some)
                        &&& match (dv[k].1.installs, out@[k].1.installs) {
                            (Some(di), Some(oi)) => oi.cmd@ == di.cmd@
                                && oi.depends.deep_view().to_set() == resolved_dep_set(
                                abs,
                                di.depends.deep_view(),
                            ),
                            _ => true,
                        }
                        &&& (out@[k].1.depends is Some) == (dv[k].1.depends is Some)
                        &&& match (dv[k].1.depends, out@[k].1.depends) {
                            (Some(dd), Some(od)) => od.deep_view().to_set() == resolved_dep_set(
                                abs,
                                dd.deep_view(),
                            ),
                            _ => true,
                        }
                    }
            },
            errors@.len() == spec_bad_count(dv.take(i)),
            errors@.len() >= 1 ==> (exists|k: int|
                0 <= k < i && !spec_dot_ok((#[trigger] dv[k]).0@, dv[k].1)),
            forall|k: int|
                0 <= k < i && !spec_dot_ok((#[trigger] dv[k]).0@, dv[k].1) ==> errors@.len() >= 1,
        decreases rest@.len(),
    {
        let (name, dot) = rest.remove(0);
        proof {
            assert(dv.skip(i)[0] == dv[i]);
            assert(rest@ =~= dv.skip(i + 1));
            assert(dv.take(i + 1).drop_last() =~= dv.take(i));
            assert(dv.take(i + 1).last() == dv[i]);
        }
        match canonicalize_dot(name, dot) {
            Ok(item) => {
                out.push(item);
            },
            Err(e) => {
                errors.push(e);
            },
        }
        proof {
            i = i + 1;
        }
    }
    proof {
        assert(dv.skip(dv.len() as int) =~= Seq::<(String, Dot)>::empty());
        assert(dv.take(dv.len() as int) =~= dv);
    }
    if errors.len() > 0 {
        Err(helpers::MultipleErrors(errors))
    } else {
        Ok(out)
    }
}

} // verus!
