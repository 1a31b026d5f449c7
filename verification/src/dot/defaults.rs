//! Directory-scoped default specifications: registering which default file
//! governs which directory, and nearest-ancestor lookup for an item path.
//!
//! Defaults are kept as raw text plus detected format, unparsed: a default
//! may itself contain selectors that depend on per-item context, so parsing
//! happens per consuming item after template rendering.

use vstd::prelude::*;
use vstd::seq_lib::*;

use crate::helpers;
use crate::FileFormat;

verus! {

/// The defaults index: virtual absolute directory mapped to the raw text and
/// format of the default file registered there.
#[derive(Debug, Clone, PartialEq, Default)]
pub struct Defaults {
    pub entries: Vec<(String, (String, FileFormat))>,
}

impl View for Defaults {
    type V = Seq<(Seq<char>, (Seq<char>, FileFormat))>;

    open spec fn view(&self) -> Seq<(Seq<char>, (Seq<char>, FileFormat))> {
        self.entries@.map_values(
            |p: (String, (String, FileFormat))| (p.0@, ((p.1).0@, (p.1).1)),
        )
    }
}

/// The first entry registered for directory `k`, if any.
pub open spec fn spec_lookup_default(
    entries: Seq<(Seq<char>, (Seq<char>, FileFormat))>,
    k: Seq<char>,
) -> Option<(Seq<char>, FileFormat)>
    decreases entries.len(),
{
    if entries.len() == 0 {
        None
    } else if entries[0].0 == k {
        Some(entries[0].1)
    } else {
        spec_lookup_default(entries.drop_first(), k)
    }
}

/// Base names that register a default: the current convention and the
/// deprecated alias, under every supported extension.
pub open spec fn spec_is_default_name(base: Seq<char>) -> bool {
    ||| spec_is_current_name(base)
    ||| spec_is_legacy_name(base)
}

/// The current convention: `defaults.<ext>`.
pub open spec fn spec_is_current_name(base: Seq<char>) -> bool {
    ||| base == "defaults.yaml"@
    ||| base == "defaults.yml"@
    ||| base == "defaults.toml"@
    ||| base == "defaults.json"@
}

/// The deprecated alias: `dots.<ext>`, accepted with a warning.
pub open spec fn spec_is_legacy_name(base: Seq<char>) -> bool {
    ||| base == "dots.yaml"@
    ||| base == "dots.yml"@
    ||| base == "dots.toml"@
    ||| base == "dots.json"@
}

/// The index entry one walked file contributes, if its base name matches the
/// defaults convention.
pub open spec fn spec_default_entry(t: (Seq<char>, Seq<char>, FileFormat)) -> Option<
    (Seq<char>, (Seq<char>, FileFormat)),
> {
    match helpers::spec_dir_and_base(t.0) {
        None => None,
        Some((dir, base)) => if spec_is_default_name(base) {
            Some((dir, (t.1, t.2)))
        } else {
            None
        },
    }
}

/// A walked file that uses the deprecated base name.
pub open spec fn spec_is_legacy_file(t: (Seq<char>, Seq<char>, FileFormat)) -> bool {
    match helpers::spec_dir_and_base(t.0) {
        None => false,
        Some((dir, base)) => spec_is_legacy_name(base),
    }
}

/// View of the walked files.
pub open spec fn files_view(s: Seq<(String, String, FileFormat)>) -> Seq<
    (Seq<char>, Seq<char>, FileFormat),
> {
    s.map_values(|t: (String, String, FileFormat)| (t.0@, t.1@, t.2))
}

/// The index described by the walked files, in walk order.
pub open spec fn defaults_of(s: Seq<(Seq<char>, Seq<char>, FileFormat)>) -> Seq<
    (Seq<char>, (Seq<char>, FileFormat)),
> {
    s.map_values(|t: (Seq<char>, Seq<char>, FileFormat)| spec_default_entry(t)).filter(
        |o: Option<(Seq<char>, (Seq<char>, FileFormat))>| o is Some,
    ).map_values(|o: Option<(Seq<char>, (Seq<char>, FileFormat))>| o->0)
}

/// The deprecation warnings the walked files earn: the path of every file
/// using the deprecated base name, in walk order.
pub open spec fn warnings_of(s: Seq<(Seq<char>, Seq<char>, FileFormat)>) -> Seq<Seq<char>> {
    s.filter(|t: (Seq<char>, Seq<char>, FileFormat)| spec_is_legacy_file(t)).map_values(
        |t: (Seq<char>, Seq<char>, FileFormat)| t.0,
    )
}

proof fn lemma_defaults_push(
    s: Seq<(Seq<char>, Seq<char>, FileFormat)>,
    x: (Seq<char>, Seq<char>, FileFormat),
)
    ensures
        defaults_of(s.push(x)) == defaults_of(s) + (match spec_default_entry(x) {
            Some(e) => seq![e],
            None => Seq::<(Seq<char>, (Seq<char>, FileFormat))>::empty(),
        }),
        warnings_of(s.push(x)) == warnings_of(s) + (if spec_is_legacy_file(x) {
            seq![x.0]
        } else {
            Seq::<Seq<char>>::empty()
        }),
{
    broadcast use Seq::lemma_filter_push;
    broadcast use Seq::lemma_push_map_commute;

    if spec_default_entry(x) is Some {
        assert(defaults_of(s.push(x)) =~= defaults_of(s).push(spec_default_entry(x)->0));
        assert(defaults_of(s) + seq![spec_default_entry(x)->0] =~= defaults_of(s).push(
            spec_default_entry(x)->0,
        ));
    } else {
        assert(defaults_of(s.push(x)) =~= defaults_of(s));
        assert(defaults_of(s) + Seq::<(Seq<char>, (Seq<char>, FileFormat))>::empty()
            =~= defaults_of(s));
    }
    if spec_is_legacy_file(x) {
        assert(warnings_of(s.push(x)) =~= warnings_of(s).push(x.0));
        assert(warnings_of(s) + seq![x.0] =~= warnings_of(s).push(x.0));
    } else {
        assert(warnings_of(s.push(x)) =~= warnings_of(s));
        assert(warnings_of(s) + Seq::<Seq<char>>::empty() =~= warnings_of(s));
    }
}

/// Whether `base` is one of the given candidate names.
fn base_is_one_of(base: &str, a: &str, b: &str, c: &str, d: &str) -> (r: bool)
    ensures
        r == (base@ == a@ || base@ == b@ || base@ == c@ || base@ == d@),
{
    helpers::str_eq(base, a) || helpers::str_eq(base, b) || helpers::str_eq(base, c)
        || helpers::str_eq(base, d)
}

impl Defaults {
    /// Builds the index from a tree walk: every file whose base name matches
    /// the defaults convention is registered under its directory; files
    /// using the deprecated alias additionally earn a deprecation warning.
    pub fn from_files(files: Vec<(String, String, FileFormat)>) -> (r: (Defaults, Vec<String>))
        ensures
            r.0@ == defaults_of(files_view(files@)),
            r.1.deep_view() == warnings_of(files_view(files@)),
    {
        let ghost fv = files_view(files@);
        let mut rest = files;
        let mut entries: Vec<(String, (String, FileFormat))> = Vec::new();
        let mut warnings: Vec<String> = Vec::new();
        let ghost i: int = 0;
        proof {
            assert(fv.take(0) =~= Seq::<(Seq<char>, Seq<char>, FileFormat)>::empty());
            assert(defaults_of(fv.take(0)) =~= Seq::<(Seq<char>, (Seq<char>, FileFormat))>::empty());
            assert(warnings_of(fv.take(0)) =~= Seq::<Seq<char>>::empty());
            assert(entries@.map_values(
                |p: (String, (String, FileFormat))| (p.0@, ((p.1).0@, (p.1).1)),
            ) =~= defaults_of(fv.take(0)));
            assert(warnings.deep_view() =~= warnings_of(fv.take(0)));
        }
        while rest.len() > 0
            invariant
                0 <= i <= fv.len(),
                files_view(rest@) =~= fv.skip(i),
                entries@.map_values(
                    |p: (String, (String, FileFormat))| (p.0@, ((p.1).0@, (p.1).1)),
                ) == defaults_of(fv.take(i)),
                warnings.deep_view() == warnings_of(fv.take(i)),
            decreases rest@.len(),
        {
            let ghost pre_rest = rest@;
            let (path, text, format) = rest.remove(0);
            let ghost x = (path@, text@, format);
            proof {
                assert(files_view(pre_rest)[0] == x);
                assert(fv.skip(i)[0] == x);
                assert(files_view(rest@) =~= fv.skip(i + 1)) by {
                    assert(rest@ =~= pre_rest.drop_first());
                    assert(fv.skip(i).drop_first() =~= fv.skip(i + 1));
                    assert(forall|m: int|
                        0 <= m < rest@.len() ==> #[trigger] files_view(rest@)[m] == files_view(
                            pre_rest,
                        )[m + 1]);
                }
                assert(fv.take(i + 1) =~= fv.take(i).push(x));
                lemma_defaults_push(fv.take(i), x);
            }
            match helpers::split_path(path.as_str()) {
                Err(_) => {
                    proof {
                        assert(spec_default_entry(x) is None);
                        assert(!spec_is_legacy_file(x));
                        assert(entries@.map_values(
                            |p: (String, (String, FileFormat))| (p.0@, ((p.1).0@, (p.1).1)),
                        ) =~= defaults_of(fv.take(i + 1)));
                        assert(warnings.deep_view() =~= warnings_of(fv.take(i + 1)));
                    }
                },
                Ok((dir, base)) => {
                    let is_current = base_is_one_of(
                        base.as_str(),
                        "defaults.yaml",
                        "defaults.yml",
                        "defaults.toml",
                        "defaults.json",
                    );
                    let is_legacy = base_is_one_of(
                        base.as_str(),
                        "dots.yaml",
                        "dots.yml",
                        "dots.toml",
                        "dots.json",
                    );
                    if is_legacy {
                        let ghost pre = warnings.deep_view();
                        warnings.push(path.clone());
                        proof {
                            assert(warnings.deep_view() =~~= pre.push(x.0));
                        }
                    }
                    if is_current || is_legacy {
                        let ghost pre = entries@.map_values(
                            |p: (String, (String, FileFormat))| (p.0@, ((p.1).0@, (p.1).1)),
                        );
                        entries.push((dir, (text, format)));
                        proof {
                            assert(spec_default_entry(x) == Some((dir@, (text@, format))));
                            assert(entries@.map_values(
                                |p: (String, (String, FileFormat))| (p.0@, ((p.1).0@, (p.1).1)),
                            ) =~= pre.push((dir@, (text@, format))));
                            assert(entries@.map_values(
                                |p: (String, (String, FileFormat))| (p.0@, ((p.1).0@, (p.1).1)),
                            ) =~= defaults_of(fv.take(i + 1)));
                        }
                    } else {
                        proof {
                            assert(spec_default_entry(x) is None);
                        }
                    }
                    proof {
                        assert(entries@.map_values(
                            |p: (String, (String, FileFormat))| (p.0@, ((p.1).0@, (p.1).1)),
                        ) =~= defaults_of(fv.take(i + 1)));
                        assert(warnings.deep_view() =~= warnings_of(fv.take(i + 1)));
                    }
                },
            }
            proof {
                i = i + 1;
            }
        }
        proof {
            assert(fv.take(fv.len() as int) =~= fv);
        }
        (Defaults { entries }, warnings)
    }
}

/// The ancestor directory of a resolved path given by its first `k`
/// segments; zero segments is the root itself.
pub open spec fn spec_ancestor(stack: Seq<Seq<char>>, k: int) -> Seq<char> {
    if k <= 0 {
        seq!['/']
    } else {
        helpers::spec_join_slash(stack.take(k))
    }
}

/// The first registered default among the ancestors of a path, from nearest
/// (the path itself) to the root.
pub open spec fn spec_search(
    entries: Seq<(Seq<char>, (Seq<char>, FileFormat))>,
    stack: Seq<Seq<char>>,
    k: int,
) -> Option<(Seq<char>, FileFormat)>
    decreases k
        when k >= 0
{
    match spec_lookup_default(entries, spec_ancestor(stack, k)) {
        Some(v) => Some(v),
        None => if k == 0 {
            None
        } else {
            spec_search(entries, stack, k - 1)
        },
    }
}

/// The default governing `path`: the nearest-ancestor registration, or none.
pub open spec fn spec_for_path(
    entries: Seq<(Seq<char>, (Seq<char>, FileFormat))>,
    path: Seq<char>,
) -> Option<(Seq<char>, FileFormat)> {
    match helpers::spec_resolve(helpers::spec_split(path), Seq::empty()) {
        None => None,
        Some(stack) => spec_search(entries, stack, stack.len() as int),
    }
}

/// The index of the first entry registered for `name`.
fn find_dir(entries: &Vec<(String, (String, FileFormat))>, name: &str) -> (r: Option<usize>)
    ensures
        r is Some <==> spec_lookup_default(
            entries@.map_values(|p: (String, (String, FileFormat))| (p.0@, ((p.1).0@, (p.1).1))),
            name@,
        ) is Some,
        r is Some ==> r->0 < entries@.len() && Some(
            ((entries@[r->0 as int].1).0@, (entries@[r->0 as int].1).1),
        ) == spec_lookup_default(
            entries@.map_values(|p: (String, (String, FileFormat))| (p.0@, ((p.1).0@, (p.1).1))),
            name@,
        ),
{
    let ghost ev = entries@.map_values(
        |p: (String, (String, FileFormat))| (p.0@, ((p.1).0@, (p.1).1)),
    );
    let mut i: usize = 0;
    proof {
        assert(ev.skip(0) =~= ev);
    }
    while i < entries.len()
        invariant
            i <= entries@.len(),
            ev == entries@.map_values(
                |p: (String, (String, FileFormat))| (p.0@, ((p.1).0@, (p.1).1)),
            ),
            spec_lookup_default(ev, name@) == spec_lookup_default(ev.skip(i as int), name@),
        decreases entries@.len() - i,
    {
        proof {
            assert(ev.skip(i as int)[0] == ev[i as int]);
            assert(ev.skip(i as int).drop_first() =~= ev.skip(i + 1));
        }
        if helpers::str_eq(entries[i].0.as_str(), name) {
            return Some(i);
        }
        i = i + 1;
    }
    proof {
        assert(ev.skip(entries@.len() as int) =~= Seq::<(Seq<char>, (Seq<char>, FileFormat))>::empty());
    }
    None
}

impl Defaults {
    /// Looks up the default governing `path`, walking its ancestors from the
    /// path itself to the root and handing back the first registration.  At
    /// most one default applies: the nearest ancestor wins and is not merged
    /// with registrations further up.
    pub fn for_path(&self, path: &str) -> (r: Option<&(String, FileFormat)>)
        ensures
            r is Some <==> spec_for_path(self@, path@) is Some,
            r is Some ==> Some(((r->0).0@, (r->0).1)) == spec_for_path(self@, path@),
    {
        let stack = match helpers::resolve_segments(path) {
            Ok(s) => s,
            Err(_) => {
                return None;
            },
        };
        let ghost sv = stack.deep_view();
        let mut k = stack.len();
        loop
            invariant
                k <= stack@.len(),
                sv == stack.deep_view(),
                spec_for_path(self@, path@) == spec_search(self@, sv, k as int),
            decreases k,
        {
            let anc = helpers::join_prefix(&stack, k);
            proof {
                assert(anc@ == spec_ancestor(sv, k as int));
            }
            match find_dir(&self.entries, anc.as_str()) {
                Some(idx) => {
                    return Some(&self.entries[idx].1);
                },
                None => {
                    if k == 0 {
                        return None;
                    }
                    k = k - 1;
                },
            }
        }
    }
}

} // verus!
