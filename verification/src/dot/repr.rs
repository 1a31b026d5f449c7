//! Raw ("complex") and canonical capability representations, together with
//! the merge algebra that folds every applying capability block into one
//! canonical value per item.
//!
//! The raw layer mirrors what a specification document may say: link targets
//! given as one path or many, installs given as a boolean, a bare command
//! string, or a full block.  The canonical layer is the single unambiguous
//! shape the rest of the crate computes with.

use vstd::prelude::*;
use vstd::seq_lib::*;

use crate::helpers;

pub mod selector;

use selector::{
    spec_applies, spec_parse_selectors, selectors_missing, valid_selectors, AttributeValues,
    SelectorError, SelectorModel, Selectors,
};

verus! {

// ---------------------------------------------------------------------------
// Raw (complex) layer
// ---------------------------------------------------------------------------

/// Link targets for one source path, as written in a document: either a
/// single target or a list of targets.
#[derive(Debug, Clone, PartialEq)]
pub enum Links {
    One(String),
    Many(Vec<String>),
}

/// The install field of a raw capability block: a boolean disables the
/// install, a bare string is a command with no dependencies, and the full
/// form carries both a command and dependencies.
#[derive(Debug, Clone, PartialEq)]
pub enum Installs {
    Disabled(bool),
    Simple(String),
    Full { cmd: String, depends: Vec<String> },
}

/// One raw capability block: what a document says under one selector key.
#[derive(Debug, Clone, PartialEq, Default)]
pub struct Capabilities {
    pub links: Option<Vec<(String, Links)>>,
    pub installs: Option<Installs>,
    pub depends: Option<Vec<String>>,
}

/// A whole raw document: selector-key strings (still unparsed) mapped to raw
/// capability blocks, in document order.  Order is significant: it is the
/// merge-application order for selectors that tie.
#[derive(Debug, Clone, PartialEq, Default)]
pub struct DotComplex {
    pub filters: Vec<(String, Capabilities)>,
}

// ---------------------------------------------------------------------------
// Canonical layer
// ---------------------------------------------------------------------------

/// The canonical install field: either explicitly disabled (the boolean the
/// document wrote is kept) or a command with its dependencies.
#[derive(Debug, Clone, PartialEq)]
pub enum InstallsCanonical {
    Disabled(bool),
    Full { cmd: String, depends: Vec<String> },
}

/// One canonical capability block: links with de-duplicated target sets,
/// canonical installs, and de-duplicated dependencies.
#[derive(Debug, Clone, PartialEq, Default)]
pub struct CapabilitiesCanonical {
    pub links: Option<Vec<(String, Vec<String>)>>,
    pub installs: Option<InstallsCanonical>,
    pub depends: Option<Vec<String>>,
}

// ---------------------------------------------------------------------------
// Mathematical models
// ---------------------------------------------------------------------------

/// Model of an install field: the disabled sentinel is a first-class value,
/// so the merge algebra stays total over the type.
#[verifier::ext_equal]
pub enum InstallsModel {
    Disabled,
    Present { cmd: Seq<char>, depends: Set<Seq<char>> },
}

/// Model of a capability block: links as a map from source path to target
/// set, installs as [`InstallsModel`], dependencies as a set.
#[verifier::ext_equal]
pub struct CapsModel {
    pub links: Option<Map<Seq<char>, Set<Seq<char>>>>,
    pub installs: Option<InstallsModel>,
    pub depends: Option<Set<Seq<char>>>,
}

/// The link map described by set-valued entries: entries are inserted in
/// order, and a repeated key unions its target sets.
pub open spec fn links_map(s: Seq<(Seq<char>, Set<Seq<char>>)>) -> Map<Seq<char>, Set<Seq<char>>>
    decreases s.len(),
{
    if s.len() == 0 {
        Map::empty()
    } else {
        let m = links_map(s.drop_last());
        let k = s.last().0;
        let v = s.last().1;
        m.insert(
            k,
            if m.dom().contains(k) {
                m[k].union(v)
            } else {
                v
            },
        )
    }
}

/// View of canonical link entries as set-valued entries.
pub open spec fn links_entries_view(s: Seq<(String, Vec<String>)>) -> Seq<
    (Seq<char>, Set<Seq<char>>),
> {
    s.map_values(|p: (String, Vec<String>)| (p.0@, p.1.deep_view().to_set()))
}

/// The target set a raw link value denotes.
pub open spec fn links_value_model(l: Links) -> Set<Seq<char>> {
    match l {
        Links::One(p) => Set::empty().insert(p@),
        Links::Many(v) => v.deep_view().to_set(),
    }
}

/// View of raw link entries as set-valued entries.
pub open spec fn complex_links_view(s: Seq<(String, Links)>) -> Seq<(Seq<char>, Set<Seq<char>>)> {
    s.map_values(|p: (String, Links)| (p.0@, links_value_model(p.1)))
}

impl InstallsCanonical {
    /// Model of a canonical install field.
    pub open spec fn model(self) -> InstallsModel {
        match self {
            InstallsCanonical::Disabled(_) => InstallsModel::Disabled,
            InstallsCanonical::Full { cmd, depends } => InstallsModel::Present {
                cmd: cmd@,
                depends: depends.deep_view().to_set(),
            },
        }
    }
}

impl Installs {
    /// Model of a raw install field: a bare string is a command with no
    /// dependencies.
    pub open spec fn model(self) -> InstallsModel {
        match self {
            Installs::Disabled(_) => InstallsModel::Disabled,
            Installs::Simple(cmd) => InstallsModel::Present {
                cmd: cmd@,
                depends: Set::empty(),
            },
            Installs::Full { cmd, depends } => InstallsModel::Present {
                cmd: cmd@,
                depends: depends.deep_view().to_set(),
            },
        }
    }
}

impl CapabilitiesCanonical {
    /// Model of a canonical capability block.
    pub open spec fn model(self) -> CapsModel {
        CapsModel {
            links: match self.links {
                None => None,
                Some(entries) => Some(links_map(links_entries_view(entries@))),
            },
            installs: match self.installs {
                None => None,
                Some(i) => Some(i.model()),
            },
            depends: match self.depends {
                None => None,
                Some(d) => Some(d.deep_view().to_set()),
            },
        }
    }

    /// Well-formedness: link keys are distinct, and every string list is
    /// duplicate-free.
    pub open spec fn wf(self) -> bool {
        &&& match self.links {
            None => true,
            Some(entries) => links_wf(entries@),
        }
        &&& match self.installs {
            None => true,
            Some(i) => installs_wf(i),
        }
        &&& match self.depends {
            None => true,
            Some(d) => unique_seqs(d.deep_view()),
        }
    }
}

/// Well-formedness of canonical link entries: keys are distinct and every
/// target list is duplicate-free.
pub open spec fn links_wf(entries: Seq<(String, Vec<String>)>) -> bool {
    &&& forall|i: int, j: int|
        0 <= i < j < entries.len() ==> (#[trigger] entries[i]).0@ != (#[trigger] entries[j]).0@
    &&& forall|i: int| 0 <= i < entries.len() ==> unique_seqs((#[trigger] entries[i]).1.deep_view())
}

/// Well-formedness of a canonical install field: its dependency list is
/// duplicate-free.
pub open spec fn installs_wf(i: InstallsCanonical) -> bool {
    match i {
        InstallsCanonical::Disabled(_) => true,
        InstallsCanonical::Full { cmd: _, depends } => unique_seqs(depends.deep_view()),
    }
}

impl Capabilities {
    /// Model of a raw capability block.
    pub open spec fn model(self) -> CapsModel {
        CapsModel {
            links: match self.links {
                None => None,
                Some(entries) => Some(links_map(complex_links_view(entries@))),
            },
            installs: match self.installs {
                None => None,
                Some(i) => Some(i.model()),
            },
            depends: match self.depends {
                None => None,
                Some(d) => Some(d.deep_view().to_set()),
            },
        }
    }
}

/// All elements of `s` are distinct.
pub open spec fn unique_seqs(s: Seq<Seq<char>>) -> bool {
    forall|i: int, j: int| 0 <= i < j < s.len() ==> s[i] != s[j]
}

// ---------------------------------------------------------------------------
// De-duplicating unions over string vectors
// ---------------------------------------------------------------------------

/// Appends to `a` every string of `b` not already present, so the result
/// denotes the set union and stays duplicate-free.
pub fn union_strings(a: Vec<String>, b: &Vec<String>) -> (r: Vec<String>)
    requires
        unique_seqs(a.deep_view()),
    ensures
        unique_seqs(r.deep_view()),
        r.deep_view().to_set() == a.deep_view().to_set().union(b.deep_view().to_set()),
{
    broadcast use Seq::lemma_push_to_set_commute;

    let ghost bv = b.deep_view();
    let mut acc = a;
    let mut i: usize = 0;
    proof {
        assert(bv.take(0) =~~= Seq::<Seq<char>>::empty());
        assert(bv.take(0).to_set() =~= Set::<Seq<char>>::empty());
        assert(acc.deep_view().to_set() =~= acc.deep_view().to_set().union(bv.take(0).to_set()));
    }
    let ghost av = acc.deep_view();
    while i < b.len()
        invariant
            i <= bv.len(),
            bv == b.deep_view(),
            unique_seqs(acc.deep_view()),
            acc.deep_view().to_set() == av.to_set().union(bv.take(i as int).to_set()),
        decreases bv.len() - i,
    {
        proof {
            assert(bv.take(i + 1) =~~= bv.take(i as int).push(bv[i as int]));
        }
        let present = contains_str(&acc, b[i].as_str());
        if !present {
            let ghost pre = acc.deep_view();
            acc.push(b[i].clone());
            proof {
                assert(acc.deep_view() =~~= pre.push(bv[i as int]));
                pre.lemma_push_to_set_commute(bv[i as int]);
                bv.take(i as int).lemma_push_to_set_commute(bv[i as int]);
                assert(acc.deep_view().to_set() =~= av.to_set().union(bv.take(i + 1).to_set()));
            }
        } else {
            proof {
                bv.take(i as int).lemma_push_to_set_commute(bv[i as int]);
                assert(bv.take(i + 1).to_set() == bv.take(i as int).to_set().insert(bv[i as int]));
                assert(acc.deep_view().to_set().contains(bv[i as int]));
                assert(acc.deep_view().to_set() =~= av.to_set().union(bv.take(i + 1).to_set()));
            }
        }
        i = i + 1;
    }
    proof {
        assert(bv.take(bv.len() as int) =~~= bv);
    }
    acc
}

/// Whether some element of `v` equals `name`, with the membership stated on
/// the deep view.
pub fn contains_str(v: &Vec<String>, name: &str) -> (r: bool)
    ensures
        r == v.deep_view().contains(name@),
        r == v.deep_view().to_set().contains(name@),
{
    let mut i: usize = 0;
    while i < v.len()
        invariant
            i <= v@.len(),
            forall|j: int| 0 <= j < i ==> v.deep_view()[j] != name@,
        decreases v@.len() - i,
    {
        if helpers::str_eq(v[i].as_str(), name) {
            proof {
                assert(v.deep_view()[i as int] == name@);
            }
            return true;
        }
        i = i + 1;
    }
    false
}

/// Copies a string vector, de-duplicating its elements; the result denotes
/// the same set.
pub fn dedup_strings(v: &Vec<String>) -> (r: Vec<String>)
    ensures
        unique_seqs(r.deep_view()),
        r.deep_view().to_set() == v.deep_view().to_set(),
{
    let empty: Vec<String> = Vec::new();
    proof {
        assert(empty.deep_view() =~~= Seq::<Seq<char>>::empty());
        assert(unique_seqs(empty.deep_view()));
    }
    let r = union_strings(empty, v);
    proof {
        assert(Seq::<Seq<char>>::empty().to_set() =~= Set::<Seq<char>>::empty());
        assert(r.deep_view().to_set() =~= v.deep_view().to_set());
    }
    r
}

// ---------------------------------------------------------------------------
// Properties of the link map
// ---------------------------------------------------------------------------

/// Entry keys are pairwise distinct.
pub open spec fn unique_entry_keys(s: Seq<(Seq<char>, Set<Seq<char>>)>) -> bool {
    forall|i: int, j: int| 0 <= i < j < s.len() ==> (#[trigger] s[i]).0 != (#[trigger] s[j]).0
}

proof fn lemma_links_map_dom_contains(s: Seq<(Seq<char>, Set<Seq<char>>)>, k: Seq<char>)
    ensures
        links_map(s).dom().contains(k) <==> (exists|i: int|
            0 <= i < s.len() && (#[trigger] s[i]).0 == k),
    decreases s.len(),
{
    if s.len() == 0 {
    } else {
        lemma_links_map_dom_contains(s.drop_last(), k);
        if links_map(s).dom().contains(k) {
            if s.last().0 == k {
                assert(s[s.len() - 1].0 == k);
            } else {
                let t = s.drop_last();
                let i = choose|i: int| 0 <= i < t.len() && (#[trigger] t[i]).0 == k;
                assert(s[i].0 == k);
            }
        }
        if exists|i: int| 0 <= i < s.len() && (#[trigger] s[i]).0 == k {
            let i = choose|i: int| 0 <= i < s.len() && (#[trigger] s[i]).0 == k;
            if i < s.len() - 1 {
                assert(s.drop_last()[i].0 == k);
            }
        }
    }
}

proof fn lemma_links_map_at(s: Seq<(Seq<char>, Set<Seq<char>>)>, i: int)
    requires
        unique_entry_keys(s),
        0 <= i < s.len(),
    ensures
        links_map(s).dom().contains(s[i].0),
        links_map(s)[s[i].0] == s[i].1,
    decreases s.len(),
{
    if i == s.len() - 1 {
        lemma_links_map_dom_contains(s.drop_last(), s[i].0);
        assert(forall|j: int|
            0 <= j < s.drop_last().len() ==> (#[trigger] s.drop_last()[j]).0 != s[i].0);
    } else {
        assert(unique_entry_keys(s.drop_last()));
        assert(s.drop_last()[i] == s[i]);
        lemma_links_map_at(s.drop_last(), i);
        assert(s.last().0 != s[i].0);
    }
}

proof fn lemma_links_map_update(s: Seq<(Seq<char>, Set<Seq<char>>)>, i: int, v: Set<Seq<char>>)
    requires
        unique_entry_keys(s),
        0 <= i < s.len(),
    ensures
        links_map(s.update(i, (s[i].0, v))) == links_map(s).insert(s[i].0, v),
    decreases s.len(),
{
    let k = s[i].0;
    let t = s.update(i, (k, v));
    if i == s.len() - 1 {
        assert(t.drop_last() =~~= s.drop_last());
        lemma_links_map_dom_contains(s.drop_last(), k);
        assert(forall|j: int|
            0 <= j < s.drop_last().len() ==> (#[trigger] s.drop_last()[j]).0 != k);
        assert(t.last() == (k, v));
        assert(links_map(t) =~~= links_map(s).insert(k, v));
    } else {
        assert(unique_entry_keys(s.drop_last()));
        assert(s.drop_last()[i] == s[i]);
        assert(t.drop_last() =~~= s.drop_last().update(i, (k, v)));
        lemma_links_map_update(s.drop_last(), i, v);
        let lk = s.last().0;
        assert(lk != k);
        assert(t.last() == s.last());
        lemma_links_map_dom_contains(s.drop_last(), lk);
        lemma_links_map_dom_contains(s.drop_last().update(i, (k, v)), lk);
        assert(links_map(t.drop_last()) == links_map(s.drop_last()).insert(k, v));
        assert(links_map(s.drop_last()).insert(k, v).dom().contains(lk) == links_map(
            s.drop_last(),
        ).dom().contains(lk));
        assert(links_map(t) =~~= links_map(s).insert(k, v));
    }
}

// ---------------------------------------------------------------------------
// Link entry insertion and union
// ---------------------------------------------------------------------------

/// The index of the entry whose key equals `key`, if any.
fn find_key(acc: &Vec<(String, Vec<String>)>, key: &str) -> (r: Option<usize>)
    ensures
        r is Some ==> r->0 < acc@.len() && acc@[r->0 as int].0@ == key@,
        r is None ==> forall|i: int| 0 <= i < acc@.len() ==> (#[trigger] acc@[i]).0@ != key@,
{
    let mut i: usize = 0;
    while i < acc.len()
        invariant
            i <= acc@.len(),
            forall|j: int| 0 <= j < i ==> (#[trigger] acc@[j]).0@ != key@,
        decreases acc@.len() - i,
    {
        if helpers::str_eq(acc[i].0.as_str(), key) {
            return Some(i);
        }
        i = i + 1;
    }
    None
}

/// Inserts one link entry: an existing key unions the target sets in place,
/// a fresh key is appended.
fn insert_link(acc: Vec<(String, Vec<String>)>, key: String, targets: Vec<String>) -> (r: Vec<
    (String, Vec<String>),
>)
    requires
        links_wf(acc@),
        unique_seqs(targets.deep_view()),
    ensures
        links_wf(r@),
        links_map(links_entries_view(r@)) == ({
            let m = links_map(links_entries_view(acc@));
            let v = targets.deep_view().to_set();
            m.insert(
                key@,
                if m.dom().contains(key@) {
                    m[key@].union(v)
                } else {
                    v
                },
            )
        }),
{
    let ghost a0 = acc@;
    let ghost av = links_entries_view(acc@);
    let ghost m = links_map(av);
    let ghost tset = targets.deep_view().to_set();
    proof {
        assert(forall|i: int|
            0 <= i < av.len() ==> (#[trigger] av[i]) == (a0[i].0@, a0[i].1.deep_view().to_set()));
        assert(unique_entry_keys(av));
    }
    let found = find_key(&acc, key.as_str());
    match found {
        Some(idx) => {
            proof {
                lemma_links_map_at(av, idx as int);
                assert(av[idx as int].0 == key@);
                assert(m.dom().contains(key@));
                assert(m[key@] == a0[idx as int].1.deep_view().to_set());
            }
            let mut acc = acc;
            let (k0, tv) = acc.remove(idx);
            let merged = union_strings(tv, &targets);
            acc.insert(idx, (k0, merged));
            proof {
                assert(acc@ =~= a0.update(idx as int, (k0, merged)));
                assert(acc@[idx as int].0@ == key@);
                assert(links_entries_view(acc@) =~~= av.update(idx as int, (key@, m[key@].union(
                    tset,
                ))));
                lemma_links_map_update(av, idx as int, m[key@].union(tset));
                assert(links_map(links_entries_view(acc@)) == m.insert(key@, m[key@].union(tset)));
                assert(links_wf(acc@)) by {
                    assert(forall|n: int|
                        0 <= n < acc@.len() && n != idx ==> (#[trigger] acc@[n]) == a0[n]);
                }
            }
            acc
        },
        None => {
            let mut acc = acc;
            acc.push((key, targets));
            proof {
                assert(acc@ =~= a0.push((key, targets)));
                assert(links_entries_view(acc@) =~~= av.push((key@, tset)));
                lemma_links_map_dom_contains(av, key@);
                assert(!m.dom().contains(key@));
                assert(links_entries_view(acc@).drop_last() =~~= av);
                assert(links_map(links_entries_view(acc@)) =~~= m.insert(key@, tset));
                assert(links_wf(acc@)) by {
                    assert(forall|n: int|
                        0 <= n < acc@.len() - 1 ==> (#[trigger] acc@[n]) == a0[n]);
                }
            }
            acc
        },
    }
}

/// The key-wise union of two link maps: a key present on both sides unions
/// its target sets; a key present on one side is copied unchanged.
pub open spec fn union_maps(
    ma: Map<Seq<char>, Set<Seq<char>>>,
    mb: Map<Seq<char>, Set<Seq<char>>>,
) -> Map<Seq<char>, Set<Seq<char>>> {
    Map::new(
        |k: Seq<char>| ma.dom().contains(k) || mb.dom().contains(k),
        |k: Seq<char>|
            if ma.dom().contains(k) && mb.dom().contains(k) {
                ma[k].union(mb[k])
            } else if mb.dom().contains(k) {
                mb[k]
            } else {
                ma[k]
            },
    )
}

/// Unions the link entries of `b` into `a`, entry by entry.
fn union_links(a: Vec<(String, Vec<String>)>, b: Vec<(String, Vec<String>)>) -> (r: Vec<
    (String, Vec<String>),
>)
    requires
        links_wf(a@),
        links_wf(b@),
    ensures
        links_wf(r@),
        links_map(links_entries_view(r@)) == union_maps(
            links_map(links_entries_view(a@)),
            links_map(links_entries_view(b@)),
        ),
{
    let ghost am = links_map(links_entries_view(a@));
    let ghost bv = links_entries_view(b@);
    let mut acc = a;
    let mut rest = b;
    let ghost i: int = 0;
    proof {
        assert(bv.take(0) =~~= Seq::<(Seq<char>, Set<Seq<char>>)>::empty());
        assert(links_map(bv.take(0)) =~~= Map::<Seq<char>, Set<Seq<char>>>::empty());
        assert(links_map(links_entries_view(acc@)) =~~= union_maps(am, links_map(bv.take(0))));
    }
    while rest.len() > 0
        invariant
            0 <= i <= bv.len(),
            links_entries_view(rest@) =~~= bv.skip(i),
            forall|j: int| 0 <= j < rest@.len() ==> unique_seqs((#[trigger] rest@[j]).1.deep_view()),
            links_wf(acc@),
            links_map(links_entries_view(acc@)) == union_maps(am, links_map(bv.take(i))),
        decreases rest@.len(),
    {
        let ghost pre_rest = rest@;
        let (k, tv) = rest.remove(0);
        let ghost kk = k@;
        let ghost tset = tv.deep_view().to_set();
        proof {
            assert(links_entries_view(pre_rest)[0] == (kk, tset));
            assert(bv.skip(i)[0] == (kk, tset));
            assert(links_entries_view(rest@) =~~= bv.skip(i + 1)) by {
                assert(links_entries_view(rest@) =~~= links_entries_view(pre_rest).drop_first());
                assert(links_entries_view(pre_rest).drop_first() =~~= bv.skip(i).drop_first());
                assert(bv.skip(i).drop_first() =~~= bv.skip(i + 1));
            }
            assert(unique_seqs(pre_rest[0].1.deep_view()));
        }
        let ghost m_acc = links_map(links_entries_view(acc@));
        acc = insert_link(acc, k, tv);
        proof {
            let bt = links_map(bv.take(i));
            let bt1 = links_map(bv.take(i + 1));
            assert(bv.take(i + 1).drop_last() =~~= bv.take(i));
            assert(bv.take(i + 1).last() == (kk, tset));
            assert(bt1 == bt.insert(
                kk,
                if bt.dom().contains(kk) {
                    bt[kk].union(tset)
                } else {
                    tset
                },
            ));
            assert(links_map(links_entries_view(acc@)) =~~= union_maps(am, bt1));
            i = i + 1;
        }
    }
    proof {
        assert(bv.take(bv.len() as int) =~~= bv);
    }
    acc
}

// ---------------------------------------------------------------------------
// The merge algebra, at the model level
// ---------------------------------------------------------------------------

/// Merge of the `links` field: key-wise union; a side without links yields
/// the other side unchanged.
pub open spec fn merge_links(
    a: Option<Map<Seq<char>, Set<Seq<char>>>>,
    b: Option<Map<Seq<char>, Set<Seq<char>>>>,
) -> Option<Map<Seq<char>, Set<Seq<char>>>> {
    match (a, b) {
        (None, bb) => bb,
        (aa, None) => aa,
        (Some(ma), Some(mb)) => Some(union_maps(ma, mb)),
    }
}

/// Merge of the `installs` field: an incoming disable always wins; an
/// incoming command overrides the base command while the dependency sets
/// union; an absent incoming side keeps the base.
pub open spec fn merge_installs(a: Option<InstallsModel>, b: Option<InstallsModel>) -> Option<
    InstallsModel,
> {
    match b {
        None => a,
        Some(bi) => match bi {
            InstallsModel::Disabled => Some(InstallsModel::Disabled),
            InstallsModel::Present { cmd, depends } => match a {
                Some(InstallsModel::Present { cmd: _, depends: d0 }) => Some(
                    InstallsModel::Present { cmd, depends: d0.union(depends) },
                ),
                _ => Some(InstallsModel::Present { cmd, depends }),
            },
        },
    }
}

/// Merge of the `depends` field: set union; absent plus absent stays absent.
pub open spec fn merge_depends(a: Option<Set<Seq<char>>>, b: Option<Set<Seq<char>>>) -> Option<
    Set<Seq<char>>,
> {
    match (a, b) {
        (None, bb) => bb,
        (aa, None) => aa,
        (Some(sa), Some(sb)) => Some(sa.union(sb)),
    }
}

/// The whole merge algebra over capability models, `b` folded into `a`.
pub open spec fn merge_caps_model(a: CapsModel, b: CapsModel) -> CapsModel {
    CapsModel {
        links: merge_links(a.links, b.links),
        installs: merge_installs(a.installs, b.installs),
        depends: merge_depends(a.depends, b.depends),
    }
}

/// Merge lifted to optional capability blocks: an absent side yields the
/// other side unchanged.
pub open spec fn merge_opt_model(a: Option<CapsModel>, b: Option<CapsModel>) -> Option<CapsModel> {
    match (a, b) {
        (None, bb) => bb,
        (aa, None) => aa,
        (Some(ca), Some(cb)) => Some(merge_caps_model(ca, cb)),
    }
}

/// Model of an optional capability block.
pub open spec fn opt_caps_model(o: Option<CapabilitiesCanonical>) -> Option<CapsModel> {
    match o {
        None => None,
        Some(c) => Some(c.model()),
    }
}

/// Well-formedness of an optional capability block.
pub open spec fn opt_caps_wf(o: Option<CapabilitiesCanonical>) -> bool {
    match o {
        None => true,
        Some(c) => c.wf(),
    }
}

impl CapabilitiesCanonical {
    /// Folds `other` into `self` under the merge algebra: links union
    /// key-wise, an incoming disable wins, an incoming command overrides
    /// while dependency sets union, and plain dependencies union.
    pub fn merge(self, other: Self) -> (r: Self)
        requires
            self.wf(),
            other.wf(),
        ensures
            r.wf(),
            r.model() == merge_caps_model(self.model(), other.model()),
    {
        let ghost sm = self.model();
        let ghost om = other.model();
        let links = match (self.links, other.links) {
            (None, bb) => bb,
            (aa, None) => aa,
            (Some(a), Some(b)) => Some(union_links(a, b)),
        };
        let installs = match (self.installs, other.installs) {
            (aa, None) => aa,
            (None, Some(inc)) => Some(inc),
            (Some(base), Some(inc)) => match inc {
                InstallsCanonical::Disabled(flag) => Some(InstallsCanonical::Disabled(flag)),
                InstallsCanonical::Full { cmd, depends } => match base {
                    InstallsCanonical::Disabled(_) => Some(
                        InstallsCanonical::Full { cmd, depends },
                    ),
                    InstallsCanonical::Full { cmd: _, depends: d0 } => {
                        let merged = union_strings(d0, &depends);
                        Some(InstallsCanonical::Full { cmd, depends: merged })
                    },
                },
            },
        };
        let depends = match (self.depends, other.depends) {
            (None, bb) => bb,
            (aa, None) => aa,
            (Some(a), Some(b)) => Some(union_strings(a, &b)),
        };
        let r = CapabilitiesCanonical { links, installs, depends };
        proof {
            assert(r.model() =~~= merge_caps_model(sm, om));
        }
        r
    }
}

/// Merge lifted to optional capability blocks, as the resolution fold uses
/// it: an absent accumulator takes the incoming block unchanged.
pub fn merge_opt(a: Option<CapabilitiesCanonical>, b: Option<CapabilitiesCanonical>) -> (r: Option<
    CapabilitiesCanonical,
>)
    requires
        opt_caps_wf(a),
        opt_caps_wf(b),
    ensures
        opt_caps_wf(r),
        opt_caps_model(r) == merge_opt_model(opt_caps_model(a), opt_caps_model(b)),
{
    match (a, b) {
        (None, bb) => bb,
        (aa, None) => aa,
        (Some(ca), Some(cb)) => Some(ca.merge(cb)),
    }
}

// ---------------------------------------------------------------------------
// Conversions from the raw layer
// ---------------------------------------------------------------------------

impl InstallsCanonical {
    /// Canonicalizes a raw install field: a bare string becomes a command
    /// with no dependencies.
    pub fn from(value: Installs) -> (r: Self)
        ensures
            installs_wf(r),
            r.model() == value.model(),
    {
        match value {
            Installs::Disabled(b) => InstallsCanonical::Disabled(b),
            Installs::Simple(cmd) => {
                let depends: Vec<String> = Vec::new();
                proof {
                    assert(depends.deep_view() =~~= Seq::<Seq<char>>::empty());
                    assert(depends.deep_view().to_set() =~= Set::<Seq<char>>::empty());
                }
                InstallsCanonical::Full { cmd, depends }
            },
            Installs::Full { cmd, depends } => {
                let depends = dedup_strings(&depends);
                InstallsCanonical::Full { cmd, depends }
            },
        }
    }
}

impl CapabilitiesCanonical {
    /// Canonicalizes a raw capability block: single link targets become
    /// singleton sets, lists are de-duplicated, installs are canonicalized.
    pub fn from_complex(value: Capabilities) -> (r: Self)
        ensures
            r.wf(),
            r.model() == value.model(),
    {
        let ghost vm = value.model();
        let links = match value.links {
            None => None,
            Some(entries) => {
                let ghost ev = complex_links_view(entries@);
                let mut acc: Vec<(String, Vec<String>)> = Vec::new();
                let mut rest = entries;
                let ghost i: int = 0;
                proof {
                    assert(links_wf(acc@));
                    assert(ev.take(0) =~~= Seq::<(Seq<char>, Set<Seq<char>>)>::empty());
                    assert(links_entries_view(acc@) =~~= Seq::<(Seq<char>, Set<Seq<char>>)>::empty());
                    assert(links_map(links_entries_view(acc@)) =~~= links_map(ev.take(0)));
                }
                while rest.len() > 0
                    invariant
                        0 <= i <= ev.len(),
                        complex_links_view(rest@) =~~= ev.skip(i),
                        links_wf(acc@),
                        links_map(links_entries_view(acc@)) == links_map(ev.take(i)),
                    decreases rest@.len(),
                {
                    let ghost pre_rest = rest@;
                    let (k, l) = rest.remove(0);
                    let ghost kk = k@;
                    let ghost lset = links_value_model(l);
                    proof {
                        assert(complex_links_view(pre_rest)[0] == (kk, lset));
                        assert(ev.skip(i)[0] == (kk, lset));
                        assert(complex_links_view(rest@) =~~= ev.skip(i + 1)) by {
                            assert(complex_links_view(rest@) =~~= complex_links_view(
                                pre_rest,
                            ).drop_first());
                            assert(complex_links_view(pre_rest).drop_first() =~~= ev.skip(
                                i,
                            ).drop_first());
                            assert(ev.skip(i).drop_first() =~~= ev.skip(i + 1));
                        }
                    }
                    let targets = match l {
                        Links::One(p) => {
                            let mut v: Vec<String> = Vec::new();
                            v.push(p);
                            proof {
                                assert(v.deep_view() =~~= Seq::<Seq<char>>::empty().push(
                                    v@[0]@,
                                ));
                                Seq::<Seq<char>>::empty().lemma_push_to_set_commute(v@[0]@);
                                assert(Seq::<Seq<char>>::empty().to_set() =~= Set::<
                                    Seq<char>,
                                >::empty());
                                assert(v.deep_view().to_set() == lset);
                                assert(unique_seqs(v.deep_view()));
                            }
                            v
                        },
                        Links::Many(v) => {
                            let d = dedup_strings(&v);
                            proof {
                                assert(d.deep_view().to_set() == lset);
                            }
                            d
                        },
                    };
                    acc = insert_link(acc, k, targets);
                    proof {
                        assert(ev.take(i + 1).drop_last() =~~= ev.take(i));
                        assert(ev.take(i + 1).last() == (kk, lset));
                        assert(links_map(links_entries_view(acc@)) == links_map(ev.take(i + 1)));
                        i = i + 1;
                    }
                }
                proof {
                    assert(ev.take(ev.len() as int) =~~= ev);
                }
                Some(acc)
            },
        };
        let installs = match value.installs {
            None => None,
            Some(i) => Some(InstallsCanonical::from(i)),
        };
        let depends = match value.depends {
            None => None,
            Some(d) => Some(dedup_strings(&d)),
        };
        let r = CapabilitiesCanonical { links, installs, depends };
        proof {
            assert(r.model() =~~= vm);
        }
        r
    }
}

// ---------------------------------------------------------------------------
// Laws of the merge algebra
// ---------------------------------------------------------------------------

/// Merge is left-biased on ties: when both sides carry a present install,
/// the merged install keeps the incoming (right) command, and the dependency
/// sets union.
pub proof fn lemma_merge_cmd_right_bias(
    a: CapsModel,
    b: CapsModel,
    acmd: Seq<char>,
    adeps: Set<Seq<char>>,
    bcmd: Seq<char>,
    bdeps: Set<Seq<char>>,
)
    requires
        a.installs == Some(InstallsModel::Present { cmd: acmd, depends: adeps }),
        b.installs == Some(InstallsModel::Present { cmd: bcmd, depends: bdeps }),
    ensures
        merge_caps_model(a, b).installs == Some(
            InstallsModel::Present { cmd: bcmd, depends: adeps.union(bdeps) },
        ),
{
}

/// Link merging is commutative: both orders yield the same key-wise union.
pub proof fn lemma_merge_links_commutative(
    a: Option<Map<Seq<char>, Set<Seq<char>>>>,
    b: Option<Map<Seq<char>, Set<Seq<char>>>>,
)
    ensures
        merge_links(a, b) == merge_links(b, a),
{
    match (a, b) {
        (Some(ma), Some(mb)) => {
            assert(union_maps(ma, mb) =~~= union_maps(mb, ma));
        },
        _ => {},
    }
}

/// Link merging is associative: folding order does not change the key-wise
/// union.
pub proof fn lemma_merge_links_associative(
    a: Option<Map<Seq<char>, Set<Seq<char>>>>,
    b: Option<Map<Seq<char>, Set<Seq<char>>>>,
    c: Option<Map<Seq<char>, Set<Seq<char>>>>,
)
    ensures
        merge_links(merge_links(a, b), c) == merge_links(a, merge_links(b, c)),
{
    match (a, b, c) {
        (Some(ma), Some(mb), Some(mc)) => {
            assert(union_maps(union_maps(ma, mb), mc) =~~= union_maps(ma, union_maps(mb, mc)));
        },
        _ => {},
    }
}

/// An explicit disable absorbs whatever came before it in the fold.
pub proof fn lemma_disable_is_absorbing(a: Option<InstallsModel>)
    ensures
        merge_installs(a, Some(InstallsModel::Disabled)) == Some(InstallsModel::Disabled),
{
}

/// Exact document-order semantics around a disable: a present block applied
/// after the disable re-enables and takes effect verbatim, with no
/// dependencies inherited from before the disable.
pub proof fn lemma_disable_document_order(
    a: CapsModel,
    d: CapsModel,
    b: CapsModel,
    cmd: Seq<char>,
    depends: Set<Seq<char>>,
)
    requires
        d.installs == Some(InstallsModel::Disabled),
        b.installs == Some(InstallsModel::Present { cmd, depends }),
    ensures
        merge_caps_model(merge_caps_model(a, d), b).installs == Some(
            InstallsModel::Present { cmd, depends },
        ),
{
}

// ---------------------------------------------------------------------------
// Documents: shape selection, selector-key parsing, canonicalization
// ---------------------------------------------------------------------------

/// Why a document failed to parse.
#[derive(Debug, Clone, PartialEq)]
pub enum ParseError {
    /// The YAML deserializer rejected the text; its message.
    Yaml(String),
    /// The TOML deserializer rejected the text; its message.
    Toml(String),
    /// The JSON deserializer rejected the text; its message.
    Json(String),
    /// A top-level key is no valid selector group.
    Selector(Vec<SelectorError>),
    /// Attribute keys that no rendered value was supplied for.
    Render(Vec<String>),
}

impl DotComplex {
    /// Chooses between the two legal document shapes.  The explicit
    /// selector-keyed parse wins when it succeeded; otherwise a successful
    /// simplified parse is wrapped as one `global`-keyed entry; when both
    /// failed, both underlying errors are surfaced together.
    pub fn parse(explicit: Result<DotComplex, ParseError>, simplified: Result<
        Capabilities,
        ParseError,
    >) -> (r: Result<DotComplex, Vec<ParseError>>)
        ensures
            explicit is Ok ==> r == Ok::<DotComplex, Vec<ParseError>>(explicit->Ok_0),
            explicit is Err && simplified is Ok ==> r is Ok && r->Ok_0.filters@.len() == 1
                && r->Ok_0.filters@[0].0@ == "global"@ && r->Ok_0.filters@[0].1
                == simplified->Ok_0,
            explicit is Err && simplified is Err ==> r is Err && r->Err_0@ == seq![
                explicit->Err_0,
                simplified->Err_0,
            ],
    {
        match explicit {
            Ok(d) => Ok(d),
            Err(e1) => match simplified {
                Ok(caps) => {
                    let mut filters: Vec<(String, Capabilities)> = Vec::new();
                    filters.push((String::from_str("global"), caps));
                    Ok(DotComplex { filters })
                },
                Err(e2) => {
                    let mut errs: Vec<ParseError> = Vec::new();
                    errs.push(e1);
                    errs.push(e2);
                    proof {
                        assert(errs@ =~= seq![explicit->Err_0, simplified->Err_0]);
                    }
                    Err(errs)
                },
            },
        }
    }
}

/// A parsed document: selector groups mapped to canonical capability blocks,
/// in document order.
#[derive(Debug, Clone, PartialEq, Default)]
pub struct DotCanonical {
    pub selectors: Vec<(Selectors, CapabilitiesCanonical)>,
}

/// View of document entries: parsed selector groups paired with capability
/// models.
pub open spec fn doc_entries_view(s: Seq<(Selectors, CapabilitiesCanonical)>) -> Seq<
    (Seq<SelectorModel>, CapsModel),
> {
    s.map_values(|p: (Selectors, CapabilitiesCanonical)| (p.0@, p.1.model()))
}

impl View for DotCanonical {
    type V = Seq<(Seq<SelectorModel>, CapsModel)>;

    open spec fn view(&self) -> Seq<(Seq<SelectorModel>, CapsModel)> {
        doc_entries_view(self.selectors@)
    }
}

impl DotCanonical {
    /// Every capability block is well-formed.
    pub open spec fn wf(self) -> bool {
        forall|i: int|
            0 <= i < self.selectors@.len() ==> (#[trigger] self.selectors@[i]).1.wf()
    }
}

/// The parsed view of a raw document, assuming all keys parse: selector
/// models paired with capability models.
pub open spec fn spec_parsed_doc(doc: DotComplex) -> Seq<(Seq<SelectorModel>, CapsModel)> {
    doc.filters@.map_values(
        |p: (String, Capabilities)| (spec_parse_selectors(p.0@)->0, p.1.model()),
    )
}

/// The resolved-item shape of a canonicalization result: a still-disabled
/// install drops out, an absent result is all-empty.
pub open spec fn caps_to_dot(m: Option<CapsModel>) -> CapsModel {
    match m {
        None => CapsModel { links: None, installs: None, depends: None },
        Some(c) => CapsModel {
            links: c.links,
            installs: match c.installs {
                Some(InstallsModel::Present { cmd, depends }) => Some(
                    InstallsModel::Present { cmd, depends },
                ),
                _ => None,
            },
            depends: c.depends,
        },
    }
}

/// A raw top-level key parses as a valid selector group.
pub open spec fn spec_key_ok(k: Seq<char>) -> bool {
    match spec_parse_selectors(k) {
        Some(sels) => valid_selectors(sels),
        None => None::<Seq<SelectorModel>> is Some,
    }
}

/// All keys of a raw document parse as valid selector groups.
pub open spec fn spec_keys_ok(filters: Seq<(String, Capabilities)>) -> bool {
    forall|i: int| 0 <= i < filters.len() ==> spec_key_ok((#[trigger] filters[i]).0@)
}

impl DotCanonical {
    /// Parses every selector key of a raw document and canonicalizes its
    /// blocks.  Keys that fail to parse are reported together, one error per
    /// broken key, rather than stopping at the first.
    pub fn try_from(value: DotComplex) -> (r: Result<DotCanonical, Vec<ParseError>>)
        ensures
            (r is Ok) == spec_keys_ok(value.filters@),
            r is Ok ==> {
                let out = r->Ok_0;
                &&& out.wf()
                &&& out.selectors@.len() == value.filters@.len()
                &&& forall|i: int|
                    0 <= i < value.filters@.len() ==> {
                        &&& Some((#[trigger] out.selectors@[i]).0@) == spec_parse_selectors(
                            value.filters@[i].0@,
                        )
                        &&& out.selectors@[i].1.model() == value.filters@[i].1.model()
                    }
            },
            r is Err ==> r->Err_0@.len() >= 1 && (forall|i: int|
                0 <= i < r->Err_0@.len() ==> (#[trigger] r->Err_0@[i]) is Selector),
    {
        let ghost fv = value.filters@;
        let mut rest = value.filters;
        let mut selectors: Vec<(Selectors, CapabilitiesCanonical)> = Vec::new();
        let mut errors: Vec<ParseError> = Vec::new();
        let ghost i: int = 0;
        while rest.len() > 0
            invariant
                0 <= i <= fv.len(),
                rest@ == fv.skip(i),
                errors@.len() == 0 ==> {
                    &&& forall|m: int| 0 <= m < i ==> spec_key_ok((#[trigger] fv[m]).0@)
                    &&& selectors@.len() == i
                    &&& forall|m: int|
                        0 <= m < i ==> {
                            &&& Some((#[trigger] selectors@[m]).0@) == spec_parse_selectors(
                                fv[m].0@,
                            )
                            &&& selectors@[m].1.model() == fv[m].1.model()
                            &&& selectors@[m].1.wf()
                        }
                },
                errors@.len() >= 1 ==> (exists|m: int|
                    0 <= m < i && !spec_key_ok((#[trigger] fv[m]).0@)),
                forall|m: int| 0 <= m < i && !spec_key_ok((#[trigger] fv[m]).0@) ==> errors@.len()
                    >= 1,
                forall|n: int| 0 <= n < errors@.len() ==> (#[trigger] errors@[n]) is Selector,
            decreases rest@.len(),
        {
            let (key, caps) = rest.remove(0);
            proof {
                assert(fv.skip(i)[0] == fv[i]);
                assert(rest@ =~= fv.skip(i + 1));
            }
            match Selectors::from_str(key.as_str()) {
                Ok(sels) => {
                    let canonical = CapabilitiesCanonical::from_complex(caps);
                    selectors.push((sels, canonical));
                },
                Err(es) => {
                    errors.push(ParseError::Selector(es));
                },
            }
            proof {
                i = i + 1;
            }
        }
        proof {
            assert(fv.skip(fv.len() as int) =~= Seq::<(String, Capabilities)>::empty());
        }
        if errors.len() > 0 {
            proof {
                assert(!spec_keys_ok(fv));
            }
            return Err(errors);
        }
        let out = DotCanonical { selectors };
        proof {
            assert(out.wf());
            assert(spec_keys_ok(fv));
            assert(forall|m: int|
                0 <= m < fv.len() ==> (#[trigger] out@[m]) == (
                    out.selectors@[m].0@,
                    out.selectors@[m].1.model(),
                ));
        }
        Ok(out)
    }

    /// Parses a raw document from its two shape attempts in one step: the
    /// shape is chosen as [`DotComplex::parse`] does, then every selector key
    /// is parsed and validated.
    pub fn parse(explicit: Result<DotComplex, ParseError>, simplified: Result<
        Capabilities,
        ParseError,
    >) -> (r: Result<DotCanonical, Vec<ParseError>>)
        ensures
            explicit is Ok ==> ((r is Ok) == spec_keys_ok(explicit->Ok_0.filters@)),
            explicit is Err && simplified is Err ==> r is Err,
            r is Err ==> r->Err_0@.len() >= 1,
    {
        match DotComplex::parse(explicit, simplified) {
            Ok(doc) => DotCanonical::try_from(doc),
            Err(errs) => Err(errs),
        }
    }
}

/// The canonicalization fold: walk the document's selector groups in order;
/// a group whose evaluation misses rendered values fails the whole
/// resolution; a group that applies is merged onto the accumulator.
pub open spec fn spec_canonicalize(
    entries: Seq<(Seq<SelectorModel>, CapsModel)>,
    os: crate::helpers::Os,
    vals: Seq<(Seq<char>, Seq<char>)>,
    acc: Option<CapsModel>,
) -> Result<Option<CapsModel>, Seq<Seq<char>>>
    decreases entries.len(),
{
    if entries.len() == 0 {
        Ok(acc)
    } else {
        let sels = entries[0].0;
        let caps = entries[0].1;
        let miss = selectors_missing(sels, os, vals);
        if miss.len() > 0 {
            Err(miss)
        } else if spec_applies(sels, os, vals) {
            spec_canonicalize(entries.drop_first(), os, vals, merge_opt_model(acc, Some(caps)))
        } else {
            spec_canonicalize(entries.drop_first(), os, vals, acc)
        }
    }
}

impl CapabilitiesCanonical {
    /// Evaluates which selector groups of `dot` apply on `current_os` under
    /// the rendered `values`, and reduces the applying blocks in document
    /// order onto `base`, the inherited default.  A group whose evaluation
    /// misses rendered values fails the whole resolution with those keys.
    pub fn from(dot: DotCanonical, current_os: crate::helpers::Os, values: &AttributeValues, base: Option<
        CapabilitiesCanonical,
    >) -> (r: Result<Option<CapabilitiesCanonical>, Vec<String>>)
        requires
            dot.wf(),
            opt_caps_wf(base),
        ensures
            match spec_canonicalize(dot@, current_os, values@, opt_caps_model(base)) {
                Ok(m) => r is Ok && opt_caps_model(r->Ok_0) == m && opt_caps_wf(r->Ok_0),
                Err(keys) => r is Err && r->Err_0.deep_view() == keys,
            },
    {
        let ghost dv = dot@;
        let ghost base_model = opt_caps_model(base);
        let mut rest = dot.selectors;
        let mut acc = base;
        let ghost i: int = 0;
        proof {
            assert(dv.skip(0) =~= dv);
        }
        while rest.len() > 0
            invariant
                dv == dot@,
                opt_caps_model(base) == base_model,
                0 <= i <= dv.len(),
                doc_entries_view(rest@) =~= dv.skip(i),
                forall|m: int| 0 <= m < rest@.len() ==> (#[trigger] rest@[m]).1.wf(),
                opt_caps_wf(acc),
                spec_canonicalize(dv, current_os, values@, base_model) == spec_canonicalize(
                    dv.skip(i),
                    current_os,
                    values@,
                    opt_caps_model(acc),
                ),
            decreases rest@.len(),
        {
            let ghost pre_rest = rest@;
            let (sels, caps) = rest.remove(0);
            proof {
                assert(doc_entries_view(pre_rest)[0] == (sels@, caps.model()));
                assert(dv.skip(i)[0] == (sels@, caps.model()));
                assert(dv.skip(i).drop_first() =~= dv.skip(i + 1));
                assert(doc_entries_view(rest@) =~= dv.skip(i + 1)) by {
                    assert(rest@ =~= pre_rest.drop_first());
                    assert(dv.skip(i).drop_first() =~= dv.skip(i + 1));
                    assert(forall|m: int|
                        0 <= m < rest@.len() ==> #[trigger] doc_entries_view(rest@)[m]
                            == doc_entries_view(pre_rest)[m + 1]);
                }
                assert(pre_rest[0].1.wf());
            }
            let ghost pre_acc = opt_caps_model(acc);
            match sels.applies(current_os, values) {
                Err(keys) => {
                    proof {
                        assert(dv.skip(i).len() > 0);
                        assert(selectors_missing(sels@, current_os, values@).len() > 0);
                        assert(spec_canonicalize(dv.skip(i), current_os, values@, pre_acc)
                            == Err::<Option<CapsModel>, Seq<Seq<char>>>(selectors_missing(
                            sels@,
                            current_os,
                            values@,
                        )));
                    }
                    return Err(keys);
                },
                Ok(does_apply) => {
                    proof {
                        assert(dv.skip(i).len() > 0);
                        assert(selectors_missing(sels@, current_os, values@).len() == 0);
                        assert(does_apply == spec_applies(sels@, current_os, values@));
                    }
                    if does_apply {
                        acc = merge_opt(acc, Some(caps));
                        proof {
                            assert(spec_canonicalize(dv.skip(i), current_os, values@, pre_acc)
                                == spec_canonicalize(
                                dv.skip(i + 1),
                                current_os,
                                values@,
                                opt_caps_model(acc),
                            ));
                        }
                    } else {
                        proof {
                            assert(spec_canonicalize(dv.skip(i), current_os, values@, pre_acc)
                                == spec_canonicalize(
                                dv.skip(i + 1),
                                current_os,
                                values@,
                                opt_caps_model(acc),
                            ));
                        }
                    }
                },
            }
            proof {
                i = i + 1;
            }
        }
        proof {
            assert(dv.skip(dv.len() as int) =~= Seq::<(Seq<SelectorModel>, CapsModel)>::empty());
        }
        Ok(acc)
    }
}

// ---------------------------------------------------------------------------
// The merge interface
// ---------------------------------------------------------------------------

/// Folding one value into another under the merge algebra.
pub trait Merge<T>: Sized {
    /// When the fold is defined.
    spec fn mergeable(self, other: T) -> bool;

    fn merge(self, other: T) -> Self
        requires
            self.mergeable(other),
    ;
}

impl Merge<CapabilitiesCanonical> for CapabilitiesCanonical {
    open spec fn mergeable(self, other: CapabilitiesCanonical) -> bool {
        self.wf() && other.wf()
    }

    fn merge(self, other: CapabilitiesCanonical) -> Self {
        CapabilitiesCanonical::merge(self, other)
    }
}

impl Merge<Option<CapabilitiesCanonical>> for Option<CapabilitiesCanonical> {
    open spec fn mergeable(self, other: Option<CapabilitiesCanonical>) -> bool {
        opt_caps_wf(self) && opt_caps_wf(other)
    }

    fn merge(self, other: Option<CapabilitiesCanonical>) -> Self {
        merge_opt(self, other)
    }
}

} // verus!
