//! Tests of document shape selection, canonicalization, and the defaults
//! cascade, going through real YAML deserialization the way a caller would.

use std::collections::{BTreeMap, BTreeSet};

use rotz::dot::repr::selector::AttributeValues;
use rotz::dot::repr::{Capabilities, DotComplex, Installs, Links, ParseError};
use rotz::dot::{from_str_with_defaults, Dot};
use rotz::helpers::Os;

fn yaml_strings(v: &serde_yaml::Value) -> Option<Vec<String>> {
    let seq = v.as_sequence()?;
    let mut out = Vec::new();
    for item in seq {
        out.push(item.as_str()?.to_owned());
    }
    Some(out)
}

fn yaml_links(v: &serde_yaml::Value) -> Option<Vec<(String, Links)>> {
    let map = v.as_mapping()?;
    let mut out = Vec::new();
    for (k, val) in map {
        let key = k.as_str()?.to_owned();
        let links = if let Some(one) = val.as_str() {
            Links::One(one.to_owned())
        } else {
            Links::Many(yaml_strings(val)?)
        };
        out.push((key, links));
    }
    Some(out)
}

fn yaml_installs(v: &serde_yaml::Value) -> Option<Installs> {
    if let Some(b) = v.as_bool() {
        return Some(Installs::Disabled(b));
    }
    if let Some(s) = v.as_str() {
        return Some(Installs::Simple(s.to_owned()));
    }
    let map = v.as_mapping()?;
    let mut cmd = None;
    let mut depends = Vec::new();
    for (k, val) in map {
        match k.as_str()? {
            "cmd" => cmd = Some(val.as_str()?.to_owned()),
            "depends" => depends = yaml_strings(val)?,
            _ => return None,
        }
    }
    Some(Installs::Full { cmd: cmd?, depends })
}

fn yaml_caps(v: &serde_yaml::Value) -> Option<Capabilities> {
    let map = v.as_mapping()?;
    let mut caps = Capabilities::default();
    for (k, val) in map {
        match k.as_str()? {
            "links" => caps.links = Some(yaml_links(val)?),
            "installs" => caps.installs = Some(yaml_installs(val)?),
            "depends" => caps.depends = Some(yaml_strings(val)?),
            _ => return None,
        }
    }
    Some(caps)
}

/// Attempts both legal document shapes, the way the reading side does, and
/// lets the library choose.
fn parse_yaml_doc(text: &str) -> Result<DotComplex, Vec<ParseError>> {
    let value: serde_yaml::Value = match serde_yaml::from_str(text) {
        Ok(v) => v,
        Err(e) => {
            return Err(vec![ParseError::Yaml(e.to_string())]);
        },
    };
    let explicit = (|| {
        let map = value.as_mapping()?;
        let mut filters = Vec::new();
        for (k, val) in map {
            filters.push((k.as_str()?.to_owned(), yaml_caps(val)?));
        }
        Some(DotComplex { filters })
    })()
    .ok_or(ParseError::Yaml("no explicit shape".to_owned()));
    let simplified = yaml_caps(&value).ok_or(ParseError::Yaml("no simplified shape".to_owned()));
    DotComplex::parse(explicit, simplified)
}

fn empty_values() -> AttributeValues {
    AttributeValues::new(Vec::new())
}

fn resolve(text: &str, os: Os) -> Dot {
    let doc = parse_yaml_doc(text).unwrap();
    from_str_with_defaults(doc, None, os, &empty_values()).unwrap()
}

fn link_sets(dot: &Dot) -> BTreeMap<String, BTreeSet<String>> {
    let mut out = BTreeMap::new();
    for (k, targets) in dot.links.as_ref().unwrap() {
        out.insert(k.clone(), targets.iter().cloned().collect());
    }
    out
}

#[test]
fn parse_dot_complex() {
    let dot_string = "\n  global:\n    installs: test\n  ";
    let doc = parse_yaml_doc(dot_string).unwrap();
    assert_eq!(doc.filters.len(), 1);
    assert_eq!(doc.filters[0].0, "global");
    assert!(matches!(&doc.filters[0].1.installs, Some(Installs::Simple(s)) if s == "test"));
}

#[test]
fn parse_without_defaults() {
    let doc = parse_yaml_doc("installs: i01\n").unwrap();
    let dot = Dot::parse(doc, Os::Linux, &empty_values()).unwrap();
    assert_eq!(dot.installs.as_ref().unwrap().cmd, "i01");
}

#[test]
fn canonical_document_keeps_selector_order() {
    let doc = parse_yaml_doc("windows:\n  installs: a\nlinux:\n  installs: b\n").unwrap();
    let canonical = rotz::dot::repr::DotCanonical::try_from(doc).unwrap();
    assert_eq!(canonical.selectors.len(), 2);
    assert_eq!(canonical.selectors[0].0 .0[0].os, Os::Windows);
    assert_eq!(canonical.selectors[1].0 .0[0].os, Os::Linux);
}

#[test]
fn both_shapes_failing_reports_both_errors() {
    let errs = parse_yaml_doc("selectors: [1, 2]").unwrap_err();
    assert_eq!(errs.len(), 2);
}

#[test]
fn structure() {
    let dot = resolve(
        "links:\n  k01: v01\n  k02: v02\ninstalls: i01\ndepends: [d01]\n",
        Os::Linux,
    );
    let links = link_sets(&dot);
    assert_eq!(links["k01"], BTreeSet::from(["v01".to_owned()]));
    assert_eq!(links["k02"], BTreeSet::from(["v02".to_owned()]));
    assert_eq!(dot.installs.as_ref().unwrap().cmd, "i01");
    assert!(dot.depends.as_ref().unwrap().contains(&"d01".to_owned()));
}

#[test]
fn mod_structure() {
    let dot = resolve(
        "links:\n  k01: [v01a, v01b]\n  k02: [v02a, v02b]\ninstalls:\n  cmd: i01\n  depends: [d01]\ndepends: [d02]\n",
        Os::Linux,
    );
    let links = link_sets(&dot);
    assert_eq!(links["k01"], BTreeSet::from(["v01a".to_owned(), "v01b".to_owned()]));
    assert_eq!(links["k02"], BTreeSet::from(["v02a".to_owned(), "v02b".to_owned()]));
    let installs = dot.installs.as_ref().unwrap();
    assert_eq!(installs.cmd, "i01");
    assert!(installs.depends.contains(&"d01".to_owned()));
    assert!(dot.depends.as_ref().unwrap().contains(&"d02".to_owned()));
}

#[test]
fn structure_s03() {
    let dot = resolve("links:\n  k02: v02\n  k01: v01\n", Os::Linux);
    let links = link_sets(&dot);
    assert_eq!(links["k01"], BTreeSet::from(["v01".to_owned()]));
    assert_eq!(links["k02"], BTreeSet::from(["v02".to_owned()]));
}

#[test]
fn structure_s04() {
    let dot = resolve(
        "global:\n  links:\n    k01: v01\n    k02: v02a\nlinux:\n  links:\n    k02: v02b\n",
        Os::Linux,
    );
    let links = link_sets(&dot);
    assert_eq!(links["k01"], BTreeSet::from(["v01".to_owned()]));
    assert_eq!(links["k02"], BTreeSet::from(["v02a".to_owned(), "v02b".to_owned()]));
}

#[test]
fn structure_s05() {
    let dot = resolve("windows:\n  installs: i01\n", Os::Linux);
    assert!(dot.installs.is_none());
}

#[test]
fn structure_s06() {
    let dot = resolve("linux:\n  installs: i01\n", Os::Linux);
    assert_eq!(dot.installs.as_ref().unwrap().cmd, "i01");
}

#[test]
fn structure_s07() {
    let dot = resolve("global:\n  installs: i01\nlinux:\n  installs: i02\n", Os::Linux);
    assert_eq!(dot.installs.as_ref().unwrap().cmd, "i02");
}

fn test_values() -> AttributeValues {
    AttributeValues::new(vec![
        ("test".to_owned(), "test".to_owned()),
        ("nested.nest".to_owned(), "nest".to_owned()),
    ])
}

#[test]
fn selectors() {
    // The predicate does not hold, so the block does not apply.
    let doc = parse_yaml_doc("linux[test=\"other\"]:\n  installs: i01\n").unwrap();
    let dot = from_str_with_defaults(doc, None, Os::Linux, &test_values()).unwrap();
    assert!(dot.installs.is_none());
}

#[test]
fn mod_selectors() {
    let doc =
        parse_yaml_doc("linux[test=\"other\"]:\n  installs: i01\nlinux[test=\"test\"]:\n  installs: i02\n")
            .unwrap();
    let dot = from_str_with_defaults(doc, None, Os::Linux, &test_values()).unwrap();
    assert_eq!(dot.installs.as_ref().unwrap().cmd, "i02");
}

#[test]
fn filters() {
    // The older grammar revision: comma-separated predicates in one block.
    let doc = parse_yaml_doc(
        "linux[test=\"test\", nested.nest=\"nest\"]:\n  installs: i03\n",
    )
    .unwrap();
    let dot = from_str_with_defaults(doc, None, Os::Linux, &test_values()).unwrap();
    assert_eq!(dot.installs.as_ref().unwrap().cmd, "i03");
}

#[test]
fn invalid_selector_keys_are_collected() {
    let doc = parse_yaml_doc("osx:\n  installs: a\nweird key:\n  installs: b\n").unwrap();
    let errs = from_str_with_defaults(doc, None, Os::Linux, &empty_values()).unwrap_err();
    assert_eq!(errs.len(), 2);
    assert!(errs.iter().all(|e| matches!(e, ParseError::Selector(_))));
}

#[test]
fn missing_rendered_value_is_a_hard_error() {
    let doc = parse_yaml_doc("linux[absent=\"x\"]:\n  installs: a\n").unwrap();
    let errs = from_str_with_defaults(doc, None, Os::Linux, &empty_values()).unwrap_err();
    assert_eq!(errs.len(), 1);
    assert!(matches!(&errs[0], ParseError::Render(keys) if keys == &vec!["absent".to_owned()]));
}

#[test]
fn disable_then_reenable_follows_document_order() {
    // Three blocks: a command, an explicit disable, a later command.  The
    // disable absorbs what came before it; the later block re-enables.
    let two = resolve("global:\n  installs: first\nlinux:\n  installs: false\n", Os::Linux);
    assert!(two.installs.is_none());
    let three = resolve(
        "global:\n  installs: first\nlinux:\n  installs: false\n'linux[]':\n  installs: second\n",
        Os::Linux,
    );
    assert_eq!(three.installs.as_ref().unwrap().cmd, "second");
    assert!(three.installs.as_ref().unwrap().depends.is_empty());
}

fn base_defaults() -> rotz::dot::repr::CapabilitiesCanonical {
    let doc = parse_yaml_doc("installs: base\n").unwrap();
    let canonical = rotz::dot::repr::DotCanonical::try_from(doc).unwrap();
    let caps = rotz::dot::repr::CapabilitiesCanonical::from(
        canonical,
        Os::Linux,
        &empty_values(),
        None,
    )
    .unwrap();
    caps.unwrap()
}

#[test]
fn defaults_supply_the_install_command() {
    // A tree-level default sets `installs: "base"`; an item without its own
    // install key resolves to the default command.
    let doc = parse_yaml_doc("links:\n  a: b\n").unwrap();
    let dot =
        from_str_with_defaults(doc, Some(base_defaults()), Os::Linux, &empty_values()).unwrap();
    assert_eq!(dot.installs.as_ref().unwrap().cmd, "base");
}

#[test]
fn item_disable_wins_over_defaults() {
    // The same default, but the item sets `installs: false`: the resolved
    // install is disabled regardless of the default.
    let doc = parse_yaml_doc("installs: false\n").unwrap();
    let dot =
        from_str_with_defaults(doc, Some(base_defaults()), Os::Linux, &empty_values()).unwrap();
    assert!(dot.installs.is_none());
}

#[test]
fn read_defaults() {
    let (defaults, warnings) = rotz::dot::defaults::Defaults::from_files(vec![
        (
            "test03/defaults.yaml".to_owned(),
            "installs: test03".to_owned(),
            rotz::FileFormat::Yaml,
        ),
        ("test03/test04/dot.yaml".to_owned(), "installs: test04".to_owned(), rotz::FileFormat::Yaml),
    ]);
    assert!(warnings.is_empty());
    assert!(defaults.for_path("/test03/test05").is_some());
    assert!(defaults.for_path("/test03/test04").is_some());
    assert!(defaults.for_path("/test03").is_some());
    assert!(defaults.for_path("/test01").is_none());
    let (text, format) = defaults.for_path("/test03/test05").unwrap();
    assert_eq!(text, "installs: test03");
    assert!(matches!(format, rotz::FileFormat::Yaml));
}

#[test]
fn nearest_ancestor_default_wins() {
    let (defaults, _) = rotz::dot::defaults::Defaults::from_files(vec![
        ("defaults.yaml".to_owned(), "installs: root".to_owned(), rotz::FileFormat::Yaml),
        (
            "test03/defaults.yaml".to_owned(),
            "installs: test03".to_owned(),
            rotz::FileFormat::Yaml,
        ),
    ]);
    let (near, _) = defaults.for_path("/test03/test05").unwrap();
    assert_eq!(near, "installs: test03");
    let (far, _) = defaults.for_path("/test01").unwrap();
    assert_eq!(far, "installs: root");
}

#[test]
fn legacy_defaults_name_warns() {
    let (defaults, warnings) = rotz::dot::defaults::Defaults::from_files(vec![(
        "test03/dots.yaml".to_owned(),
        "installs: test03".to_owned(),
        rotz::FileFormat::Yaml,
    )]);
    assert_eq!(warnings, vec!["test03/dots.yaml".to_owned()]);
    assert!(defaults.for_path("/test03/test05").is_some());
}
