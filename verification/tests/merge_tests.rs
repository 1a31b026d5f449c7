//! Tests of the merge algebra on canonical capability blocks.

use std::collections::{BTreeMap, BTreeSet};

use rotz::dot::repr::{Capabilities, CapabilitiesCanonical, Installs, InstallsCanonical, Links};

fn caps(
    links: Vec<(&str, Vec<&str>)>,
    installs: Option<InstallsCanonical>,
    depends: Vec<&str>,
) -> CapabilitiesCanonical {
    CapabilitiesCanonical {
        links: if links.is_empty() {
            None
        } else {
            Some(
                links
                    .into_iter()
                    .map(|(k, v)| (k.to_owned(), v.into_iter().map(str::to_owned).collect()))
                    .collect(),
            )
        },
        installs,
        depends: if depends.is_empty() {
            None
        } else {
            Some(depends.into_iter().map(str::to_owned).collect())
        },
    }
}

fn full(cmd: &str, depends: Vec<&str>) -> InstallsCanonical {
    InstallsCanonical::Full {
        cmd: cmd.to_owned(),
        depends: depends.into_iter().map(str::to_owned).collect(),
    }
}

fn link_sets(c: &CapabilitiesCanonical) -> BTreeMap<String, BTreeSet<String>> {
    let mut out = BTreeMap::new();
    if let Some(entries) = &c.links {
        for (k, targets) in entries {
            out.entry(k.clone())
                .or_insert_with(BTreeSet::new)
                .extend(targets.iter().cloned());
        }
    }
    out
}

#[test]
fn merge_is_left_biased_on_command_ties() {
    // Both sides present: the incoming command wins, the dependency sets
    // union.
    let a = caps(vec![], Some(full("first", vec!["d1"])), vec![]);
    let b = caps(vec![], Some(full("second", vec!["d2"])), vec![]);
    let merged = a.merge(b);
    match merged.installs.unwrap() {
        InstallsCanonical::Full { cmd, depends } => {
            assert_eq!(cmd, "second");
            let deps: BTreeSet<String> = depends.into_iter().collect();
            assert_eq!(deps, BTreeSet::from(["d1".to_owned(), "d2".to_owned()]));
        },
        other => panic!("unexpected merge result {:?}", other),
    }
}

#[test]
fn merge_links_unions_per_key() {
    let a = caps(vec![("k1", vec!["a"]), ("k2", vec!["x"])], None, vec![]);
    let b = caps(vec![("k2", vec!["y"]), ("k3", vec!["b"])], None, vec![]);
    let merged = a.merge(b);
    let links = link_sets(&merged);
    assert_eq!(links["k1"], BTreeSet::from(["a".to_owned()]));
    assert_eq!(links["k2"], BTreeSet::from(["x".to_owned(), "y".to_owned()]));
    assert_eq!(links["k3"], BTreeSet::from(["b".to_owned()]));
}

#[test]
fn merge_links_is_commutative_and_associative_per_key() {
    let a = caps(vec![("k", vec!["a"]), ("only_a", vec!["1"])], None, vec![]);
    let b = caps(vec![("k", vec!["b"])], None, vec![]);
    let c = caps(vec![("k", vec!["c"]), ("only_c", vec!["2"])], None, vec![]);
    let ab_c = link_sets(&a.clone().merge(b.clone()).merge(c.clone()));
    let a_bc = link_sets(&a.clone().merge(b.clone().merge(c.clone())));
    let ba = link_sets(&b.clone().merge(a.clone()));
    let ab = link_sets(&a.merge(b));
    assert_eq!(ab_c, a_bc);
    assert_eq!(ab, ba);
}

#[test]
fn incoming_disable_absorbs_the_base() {
    let a = caps(vec![], Some(full("cmd", vec!["d"])), vec![]);
    let disabled = caps(vec![], Some(InstallsCanonical::Disabled(false)), vec![]);
    let merged = a.merge(disabled);
    assert!(matches!(merged.installs, Some(InstallsCanonical::Disabled(_))));
}

#[test]
fn present_after_disable_reenables_verbatim() {
    // Exact document-order semantics: the disable absorbs what came before
    // it, and a present block applied after the disable takes effect with no
    // dependencies inherited from before the disable.
    let a = caps(vec![], Some(full("first", vec!["d1"])), vec![]);
    let disabled = caps(vec![], Some(InstallsCanonical::Disabled(false)), vec![]);
    let b = caps(vec![], Some(full("second", vec!["d2"])), vec![]);
    let merged = a.merge(disabled).merge(b);
    match merged.installs.unwrap() {
        InstallsCanonical::Full { cmd, depends } => {
            assert_eq!(cmd, "second");
            assert_eq!(depends, vec!["d2".to_owned()]);
        },
        other => panic!("unexpected merge result {:?}", other),
    }
}

#[test]
fn absent_sides_are_kept() {
    let a = caps(vec![("k", vec!["a"])], None, vec!["d1"]);
    let empty = caps(vec![], None, vec![]);
    let merged = a.clone().merge(empty.clone());
    assert_eq!(link_sets(&merged), link_sets(&a));
    assert_eq!(merged.depends, Some(vec!["d1".to_owned()]));
    let merged = empty.merge(a.clone());
    assert_eq!(link_sets(&merged), link_sets(&a));
}

#[test]
fn depends_union_deduplicates() {
    let a = caps(vec![], None, vec!["d1", "d2"]);
    let b = caps(vec![], None, vec!["d2", "d3"]);
    let merged = a.merge(b);
    let deps: BTreeSet<String> = merged.depends.unwrap().into_iter().collect();
    assert_eq!(
        deps,
        BTreeSet::from(["d1".to_owned(), "d2".to_owned(), "d3".to_owned()])
    );
}

#[test]
fn canonicalizes_raw_shapes() {
    let raw = Capabilities {
        links: Some(vec![
            ("one".to_owned(), Links::One("t".to_owned())),
            ("many".to_owned(), Links::Many(vec!["a".to_owned(), "a".to_owned(), "b".to_owned()])),
        ]),
        installs: Some(Installs::Simple("cmd".to_owned())),
        depends: Some(vec!["d".to_owned(), "d".to_owned()]),
    };
    let canonical = CapabilitiesCanonical::from_complex(raw);
    let links = link_sets(&canonical);
    assert_eq!(links["one"], BTreeSet::from(["t".to_owned()]));
    assert_eq!(links["many"], BTreeSet::from(["a".to_owned(), "b".to_owned()]));
    match canonical.installs.unwrap() {
        InstallsCanonical::Full { cmd, depends } => {
            assert_eq!(cmd, "cmd");
            assert!(depends.is_empty());
        },
        other => panic!("unexpected canonical installs {:?}", other),
    }
    assert_eq!(canonical.depends, Some(vec!["d".to_owned()]));
}
