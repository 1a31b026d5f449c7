//! Tests of the selector parser and predicate evaluation.

use rotz::dot::repr::selector::{
    Attribute, AttributeValues, Operator, Selector, SelectorError, Selectors,
};
use rotz::helpers::Os;

fn attr(key: &str, operator: Operator, value: &str) -> Attribute {
    Attribute { key: key.to_owned(), operator, value: value.to_owned() }
}

#[test]
fn string_parser() {
    let parsed = Selectors::from_str("linux[a=\"test\"]").unwrap();
    assert_eq!(parsed.0[0].attributes[0].value, "test");
    let parsed = Selectors::from_str("linux[a=\"tes444t\"]").unwrap();
    assert_eq!(parsed.0[0].attributes[0].value, "tes444t");
    let parsed = Selectors::from_str(
        "linux[a=\"tes44 sf sdf \\\"sdf\\n dfg \\t g \\b \\f \\r \\/ \\\\4t\"]",
    )
    .unwrap();
    assert_eq!(
        parsed.0[0].attributes[0].value,
        "tes44 sf sdf \"sdf\n dfg \t g \x08 \x0C \r / \\4t"
    );
}

#[test]
fn unicode_escapes() {
    let parsed = Selectors::from_str("linux[a=\"\\u0041\\u00e9\"]").unwrap();
    assert_eq!(parsed.0[0].attributes[0].value, "A\u{e9}");
    // A surrogate code becomes the replacement character, not an error.
    let parsed = Selectors::from_str("linux[a=\"\\uD800\"]").unwrap();
    assert_eq!(parsed.0[0].attributes[0].value, "\u{FFFD}");
}

#[test]
fn operator_parser() {
    let cases = vec![
        ("=", Operator::Equal),
        ("^=", Operator::StartsWith),
        ("$=", Operator::EndsWith),
        ("*=", Operator::Contains),
        ("!=", Operator::NotEqual),
    ];
    for (op, expected) in cases {
        let text = format!("linux[test{}\"value\"]", op);
        let parsed = Selectors::from_str(&text).unwrap();
        assert_eq!(parsed.0[0].attributes[0].operator, expected);
    }
}

#[test]
fn attribute_parser() {
    let cases = vec![
        "linux[test=\"value\"]",
        "linux[test =\"value\"]",
        "linux[test= \"value\"]",
        "linux[test = \"value\"]",
    ];
    for text in cases {
        let parsed = Selectors::from_str(text).unwrap();
        assert_eq!(parsed.0[0].attributes[0], attr("test", Operator::Equal, "value"));
    }
    let parsed = Selectors::from_str("linux[test.test=\"value\"]").unwrap();
    assert_eq!(parsed.0[0].attributes[0].key, "test.test");
}

#[test]
fn attributes_parser() {
    // Chained blocks and comma-separated lists both accepted; `[]` is empty.
    let chained = Selectors::from_str("global[a=\"1\"][b=\"2\"]").unwrap();
    assert_eq!(chained.0[0].attributes.len(), 2);
    let commas = Selectors::from_str("global[a=\"1\", b=\"2\"]").unwrap();
    assert_eq!(commas.0[0].attributes.len(), 2);
    let empty = Selectors::from_str("windows[]").unwrap();
    assert_eq!(empty.0[0].attributes.len(), 0);
}

#[test]
fn os_parser() {
    let cases = vec![
        ("windows", Os::Windows),
        ("linux", Os::Linux),
        ("darwin", Os::Darwin),
        ("global", Os::Global),
    ];
    for (text, expected) in cases {
        let parsed = Selectors::from_str(text).unwrap();
        assert_eq!(parsed.0[0].os, expected);
    }
}

#[test]
fn selector_deserialization() {
    let parsed = Selectors::from_str("windows|linux").unwrap();
    assert_eq!(
        parsed,
        Selectors(vec![
            Selector { os: Os::Windows, attributes: vec![] },
            Selector { os: Os::Linux, attributes: vec![] },
        ])
    );
    let parsed = Selectors::from_str(
        "linux[whoami.distribution^=\"some\"]|windows[whoami.distribution$=\"some\"][test=\"other\"]",
    )
    .unwrap();
    assert_eq!(
        parsed,
        Selectors(vec![
            Selector {
                os: Os::Linux,
                attributes: vec![attr("whoami.distribution", Operator::StartsWith, "some")],
            },
            Selector {
                os: Os::Windows,
                attributes: vec![
                    attr("whoami.distribution", Operator::EndsWith, "some"),
                    attr("test", Operator::Equal, "other"),
                ],
            },
        ])
    );
}

#[test]
fn errors() {
    let cases = vec![
        "windows[",
        "windows[test=]",
        "windows[test=\"test\"",
        "windows[test=\"]",
        "windows[999=\"\"]",
        "windows[999##=\"\"]",
        "windows test=\"\"]",
        "",
        "osx",
    ];
    for text in cases {
        assert!(Selectors::from_str(text).is_err(), "{:?} should fail", text);
    }
}

#[test]
fn whitespace_between_tokens_is_permitted() {
    let spaced = Selectors::from_str("linux [ a = \"1\" ] | windows").unwrap();
    let tight = Selectors::from_str("linux[a=\"1\"]|windows").unwrap();
    assert_eq!(spaced, tight);
}

#[test]
fn parsing_is_deterministic() {
    let text = "linux[whoami.distribution^=\"deb\"]|windows";
    let a = Selectors::from_str(text).unwrap();
    let b = Selectors::from_str(text).unwrap();
    assert_eq!(a, b);
}

#[test]
fn global_cannot_be_mixed() {
    for text in vec!["global|linux", "linux|global", "windows|global|darwin"] {
        let errs = Selectors::from_str(text).unwrap_err();
        assert_eq!(errs.len(), 1);
        assert!(matches!(errs[0], SelectorError::GlobalMixed), "{:?}", text);
    }
    assert!(Selectors::from_str("global").is_ok());
}

#[test]
fn syntax_errors_carry_expectations() {
    let errs = Selectors::from_str("windows[test=]").unwrap_err();
    match &errs[0] {
        SelectorError::Syntax { at, found, expected } => {
            assert_eq!(*at, 13);
            assert_eq!(*found, Some(']'));
            assert!(!expected.is_empty());
        },
        other => panic!("expected a syntax error, got {:?}", other),
    }
}

fn values(entries: Vec<(&str, &str)>) -> AttributeValues {
    AttributeValues::new(
        entries.into_iter().map(|(k, v)| (k.to_owned(), v.to_owned())).collect(),
    )
}

#[test]
fn applies_evaluates_operators() {
    let vals = values(vec![("test", "test"), ("nested.nest", "nest")]);
    let yes = vec![
        "linux[test=\"test\"]",
        "linux[test^=\"te\"]",
        "linux[test$=\"st\"]",
        "linux[test*=\"es\"]",
        "linux[test!=\"other\"]",
        "global[nested.nest=\"nest\"]",
        "windows|linux",
    ];
    for text in yes {
        let sels = Selectors::from_str(text).unwrap();
        assert_eq!(sels.applies(Os::Linux, &vals), Ok(true), "{:?}", text);
    }
    let no = vec![
        "linux[test=\"other\"]",
        "linux[test^=\"st\"]",
        "linux[test!=\"test\"]",
        "windows[test=\"test\"]",
        "windows|darwin",
    ];
    for text in no {
        let sels = Selectors::from_str(text).unwrap();
        assert_eq!(sels.applies(Os::Linux, &vals), Ok(false), "{:?}", text);
    }
}

#[test]
fn applies_reports_missing_keys() {
    let vals = values(vec![("test", "test")]);
    let sels = Selectors::from_str("linux[absent=\"x\"][test=\"test\"]").unwrap();
    let errs = sels.applies(Os::Linux, &vals).unwrap_err();
    assert_eq!(errs, vec!["absent".to_owned()]);
    // A missing key in an alternative whose tag does not match is no error.
    let sels = Selectors::from_str("windows[absent=\"x\"]").unwrap();
    assert_eq!(sels.applies(Os::Linux, &vals), Ok(false));
}

#[test]
fn is_global_checks_alternatives() {
    assert!(Selectors::from_str("global").unwrap().is_global());
    assert!(!Selectors::from_str("linux|windows").unwrap().is_global());
}
