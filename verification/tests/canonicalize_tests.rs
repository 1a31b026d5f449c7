//! Tests of dependency canonicalization into the virtual absolute namespace.

use std::collections::BTreeSet;

use rotz::dot::{canonicalize_dots, Dot, Installs};

fn with_deps(name: &str, installs_deps: Vec<&str>, deps: Vec<&str>) -> (String, Dot) {
    (
        name.to_owned(),
        Dot {
            links: None,
            installs: if installs_deps.is_empty() {
                None
            } else {
                Some(Installs {
                    cmd: "cmd".to_owned(),
                    depends: installs_deps.iter().map(|d| (*d).to_owned()).collect(),
                })
            },
            depends: if deps.is_empty() {
                None
            } else {
                Some(deps.iter().map(|d| (*d).to_owned()).collect())
            },
        },
    )
}

fn dep_set(d: &Option<Vec<String>>) -> BTreeSet<String> {
    d.as_ref().unwrap().iter().cloned().collect()
}

#[test]
fn relative_and_absolute_references_meet() {
    // `../x` written in `/a/b` and `/a/x` written in `/a/b/c` resolve to the
    // same virtual absolute identity `/a/x`.
    let out = canonicalize_dots(vec![
        with_deps("/a/b", vec![], vec!["../x"]),
        with_deps("/a/b/c", vec![], vec!["/a/x"]),
    ])
    .unwrap();
    assert_eq!(out[0].0, "/a/b");
    assert_eq!(out[1].0, "/a/b/c");
    assert_eq!(dep_set(&out[0].1.depends), dep_set(&out[1].1.depends));
    assert_eq!(dep_set(&out[0].1.depends), BTreeSet::from(["/a/x".to_owned()]));
}

#[test]
fn names_are_absolutized() {
    let out = canonicalize_dots(vec![with_deps("test03/test04", vec!["../test05"], vec![])])
        .unwrap();
    assert_eq!(out[0].0, "/test03/test04");
    assert_eq!(
        dep_set(&Some(out[0].1.installs.as_ref().unwrap().depends.clone())),
        BTreeSet::from(["/test03/test05".to_owned()])
    );
}

#[test]
fn resolution_deduplicates_identities() {
    let out = canonicalize_dots(vec![with_deps("/a/b", vec![], vec!["../x", "/a/x"])]).unwrap();
    assert_eq!(out[0].1.depends.as_ref().unwrap().len(), 1);
}

#[test]
fn escaping_the_root_is_an_error() {
    let errs = canonicalize_dots(vec![with_deps("/a", vec![], vec!["../../x"])]).unwrap_err();
    assert_eq!(errs.0.len(), 1);
    assert!(matches!(&errs.0[0], rotz::dot::Error::ParseDependency(_)));
}

#[test]
fn all_broken_items_are_reported() {
    let errs = canonicalize_dots(vec![
        with_deps("/a", vec![], vec!["../../x"]),
        with_deps("/b", vec!["../../y"], vec![]),
    ])
    .unwrap_err();
    assert_eq!(errs.0.len(), 2);
}

#[test]
fn links_pass_through_unchanged() {
    let dot = Dot {
        links: Some(vec![("k".to_owned(), vec!["v".to_owned()])]),
        installs: None,
        depends: None,
    };
    let out = canonicalize_dots(vec![("a".to_owned(), dot)]).unwrap();
    assert_eq!(out[0].0, "/a");
    assert_eq!(out[0].1.links, Some(vec![("k".to_owned(), vec!["v".to_owned()])]));
}
