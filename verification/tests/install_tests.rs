//! Tests of the install planner: dependency ordering, glob-matched edges,
//! cycle detection, and the continue-on-error decision.

use rotz::commands::install::{tokenize_command, Error, Install, PlanStep};
use rotz::dot::{Dot, Installs};
use rotz::glob::glob_from_vec;

fn item(name: &str, cmd: Option<&str>, install_deps: Vec<&str>, deps: Vec<&str>) -> (String, Dot) {
    (
        name.to_owned(),
        Dot {
            links: None,
            installs: cmd.map(|c| Installs {
                cmd: c.to_owned(),
                depends: install_deps.iter().map(|d| (*d).to_owned()).collect(),
            }),
            depends: if deps.is_empty() {
                None
            } else {
                Some(deps.iter().map(|d| (*d).to_owned()).collect())
            },
        },
    )
}

fn planner(dots: Vec<(String, Dot)>, continue_on_error: bool) -> Install {
    Install::new(dots, continue_on_error, false, false, false)
}

fn names(plan: &[PlanStep]) -> Vec<String> {
    plan.iter().map(|s| s.name.clone()).collect()
}

#[test]
fn plans_dependencies_before_dependents() {
    let mut install = planner(
        vec![
            item("/a", Some("cmd-a"), vec!["/b"], vec![]),
            item("/b", Some("cmd-b"), vec![], vec![]),
        ],
        false,
    );
    let requested = glob_from_vec(&vec!["/a".to_owned()], None).unwrap();
    let plan = install.execute(&requested).unwrap();
    assert_eq!(names(&plan), vec!["/b".to_owned(), "/a".to_owned()]);
    assert_eq!(plan[0].cmd, "cmd-b");
    assert_eq!(plan[1].cmd, "cmd-a");
}

#[test]
fn glob_matched_dependency_installs_first() {
    // Requesting `pkgs/*` with `pkgs/foo` depending on the glob `lib-*`,
    // matching exactly `lib-core`, installs `lib-core` before `foo`.
    let mut install = planner(
        vec![
            item("pkgs/foo", Some("install-foo"), vec!["lib-*"], vec![]),
            item("lib-core", Some("install-lib"), vec![], vec![]),
        ],
        false,
    );
    let requested = glob_from_vec(&vec!["pkgs/*".to_owned()], None).unwrap();
    let plan = install.execute(&requested).unwrap();
    assert_eq!(names(&plan), vec!["lib-core".to_owned(), "pkgs/foo".to_owned()]);
}

#[test]
fn cyclic_install_dependencies_are_rejected() {
    // Two items whose install dependencies point at each other: planning
    // fails with the install-kind cycle error and no command is planned.
    let mut install = planner(
        vec![
            item("a", Some("cmd-a"), vec!["b"], vec![]),
            item("b", Some("cmd-b"), vec!["a"], vec![]),
        ],
        false,
    );
    let requested = glob_from_vec(&vec!["a".to_owned()], None).unwrap();
    let err = install.execute(&requested).unwrap_err();
    assert!(matches!(err, Error::CyclicInstallDependency { .. }), "{:?}", err);
    assert!(install.installed.is_empty());
}

#[test]
fn cyclic_generic_dependencies_are_distinct() {
    let mut install = planner(
        vec![item("a", None, vec![], vec!["b"]), item("b", None, vec![], vec!["a"])],
        false,
    );
    let requested = glob_from_vec(&vec!["a".to_owned()], None).unwrap();
    let err = install.execute(&requested).unwrap_err();
    assert!(matches!(err, Error::CyclicDependency { .. }), "{:?}", err);
}

#[test]
fn missing_dependency_is_reported() {
    let mut install = planner(vec![item("a", Some("cmd-a"), vec!["nope"], vec![])], false);
    let requested = glob_from_vec(&vec!["a".to_owned()], None).unwrap();
    let err = install.execute(&requested).unwrap_err();
    assert!(
        matches!(&err, Error::DependencyNotFound(item, dep) if item == "a" && dep == "nope"),
        "{:?}",
        err
    );
}

#[test]
fn invalid_dependency_glob_is_reported() {
    let mut install = planner(vec![item("a", Some("cmd-a"), vec!["[x"], vec![])], false);
    let requested = glob_from_vec(&vec!["a".to_owned()], None).unwrap();
    let err = install.execute(&requested).unwrap_err();
    assert!(matches!(&err, Error::ParseGlob(dep, _) if dep == "[x"), "{:?}", err);
}

#[test]
fn items_are_attempted_once() {
    // Two roots share a dependency: it is planned only once.
    let mut install = planner(
        vec![
            item("a", Some("cmd-a"), vec!["shared"], vec![]),
            item("b", Some("cmd-b"), vec!["shared"], vec![]),
            item("shared", Some("cmd-shared"), vec![], vec![]),
        ],
        false,
    );
    let requested = glob_from_vec(&vec!["a".to_owned(), "b".to_owned()], None).unwrap();
    let plan = install.execute(&requested).unwrap();
    assert_eq!(
        names(&plan),
        vec!["shared".to_owned(), "a".to_owned(), "b".to_owned()]
    );
}

#[test]
fn continue_on_error_keeps_going_and_never_retries() {
    // Two independent items with no dependency relation: the first fails its
    // command under continue-on-error, the second still runs, and both end
    // attempted, never retried within the run.
    let mut install = planner(
        vec![
            item("first", Some("cmd-1"), vec![], vec![]),
            item("second", Some("cmd-2"), vec![], vec![]),
        ],
        true,
    );
    let requested = glob_from_vec(&vec!["*".to_owned()], None).unwrap();
    let plan = install.execute(&requested).unwrap();
    assert_eq!(names(&plan), vec!["first".to_owned(), "second".to_owned()]);
    // The first command fails: with continue-on-error the run goes on.
    assert!(install.report_outcome(false));
    assert!(install.report_outcome(true));
    // Both items are attempted and a second run plans nothing again.
    assert!(install.installed.contains(&"first".to_owned()));
    assert!(install.installed.contains(&"second".to_owned()));
    let again = install.execute(&requested).unwrap();
    assert!(again.is_empty());
}

#[test]
fn failure_without_continue_stops_the_run() {
    let install = planner(vec![item("a", Some("cmd"), vec![], vec![])], false);
    assert!(!install.report_outcome(false));
    assert!(install.report_outcome(true));
}

#[test]
fn skip_flags_prune_dependencies() {
    let dots = vec![
        item("a", Some("cmd-a"), vec!["b"], vec!["c"]),
        item("b", Some("cmd-b"), vec![], vec![]),
        item("c", Some("cmd-c"), vec![], vec![]),
    ];
    let requested = glob_from_vec(&vec!["a".to_owned()], None).unwrap();
    let mut all_skipped = Install::new(dots.clone(), false, false, false, true);
    assert_eq!(names(&all_skipped.execute(&requested).unwrap()), vec!["a".to_owned()]);
    let mut skip_install = Install::new(dots.clone(), false, false, true, false);
    assert_eq!(
        names(&skip_install.execute(&requested).unwrap()),
        vec!["c".to_owned(), "a".to_owned()]
    );
    let mut skip_generic = Install::new(dots, false, true, false, false);
    assert_eq!(
        names(&skip_generic.execute(&requested).unwrap()),
        vec!["b".to_owned(), "a".to_owned()]
    );
}

#[test]
fn tokenize_splits_commands() {
    assert_eq!(
        tokenize_command("item", "apt install -y curl").unwrap(),
        vec!["apt".to_owned(), "install".to_owned(), "-y".to_owned(), "curl".to_owned()]
    );
    assert_eq!(
        tokenize_command("item", "bash -c 'echo hi'").unwrap(),
        vec!["bash".to_owned(), "-c".to_owned(), "echo hi".to_owned()]
    );
    let err = tokenize_command("item", "bash -c 'oops").unwrap_err();
    assert!(matches!(&err, Error::ParsingInstallCommand(it) if it == "item"));
}

#[test]
fn pattern_sets_match_their_union() {
    let set = glob_from_vec(
        &vec!["test03/*".to_owned(), "test01".to_owned()],
        Some("/dot.yaml"),
    )
    .unwrap();
    assert!(set.is_match("test03/test04/dot.yaml"));
    assert!(set.is_match("test01/dot.yaml"));
    assert!(!set.is_match("test02/dot.yaml"));
    assert!(glob_from_vec(&vec!["[".to_owned()], None).is_err());
}
