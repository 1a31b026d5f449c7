//! Tests of the shared helpers: error aggregation, virtual path
//! absolutization, and file lookup by extension preference.

use rotz::helpers::{
    absolutize_virtually, get_file_with_format, join_err, join_err_result, split_path,
};
use rotz::FileFormat;

#[test]
fn join_err_result_none() {
    let joined = join_err_result(vec![Ok::<(), String>(()), Ok::<(), String>(())]);
    assert!(joined.is_ok());
    assert_eq!(joined.unwrap().len(), 2);
}

#[test]
fn join_err_result_some() {
    let joined = join_err_result(vec![
        Ok::<(), String>(()),
        Err::<(), String>("a".to_owned()),
        Err::<(), String>("b".to_owned()),
        Ok::<(), String>(()),
    ]);
    assert!(joined.is_err());
    assert_eq!(joined.unwrap_err().0.len(), 2);
}

#[test]
fn join_err_reports_only_nonempty_batches() {
    assert!(join_err(Vec::<String>::new()).is_ok());
    let errs = join_err(vec!["a".to_owned()]).unwrap_err();
    assert_eq!(errs.0, vec!["a".to_owned()]);
}

#[test]
fn absolutize_collapses_dots() {
    assert_eq!(absolutize_virtually("/a/b/../x").unwrap(), "/a/x");
    assert_eq!(absolutize_virtually("a/./b").unwrap(), "/a/b");
    assert_eq!(absolutize_virtually("a//b/").unwrap(), "/a/b");
    assert_eq!(absolutize_virtually("").unwrap(), "/");
    assert_eq!(absolutize_virtually("/").unwrap(), "/");
}

#[test]
fn absolutize_rejects_escape_above_root() {
    assert!(absolutize_virtually("/..").is_err());
    assert!(absolutize_virtually("a/../../x").is_err());
}

#[test]
fn split_path_dir_and_base() {
    assert_eq!(
        split_path("/test03/defaults.yaml").unwrap(),
        ("/test03".to_owned(), "defaults.yaml".to_owned())
    );
    assert_eq!(split_path("dot.yaml").unwrap(), ("/".to_owned(), "dot.yaml".to_owned()));
    assert!(split_path("/").is_err());
}

#[test]
fn file_with_format_prefers_yaml() {
    let files = vec![
        "config.toml".to_owned(),
        "config.yaml".to_owned(),
        "other.json".to_owned(),
    ];
    let (name, format) = get_file_with_format(&files, "config").unwrap();
    assert_eq!(name, "config.yaml");
    assert!(matches!(format, FileFormat::Yaml));
    let (name2, format2) = get_file_with_format(&files, "other").unwrap();
    assert_eq!(name2, "other.json");
    assert!(matches!(format2, FileFormat::Json));
    assert!(get_file_with_format(&files, "missing").is_none());
}

#[test]
fn format_from_extension() {
    assert!(matches!(FileFormat::try_from("yaml"), Some(FileFormat::Yaml)));
    assert!(matches!(FileFormat::try_from("yml"), Some(FileFormat::Yaml)));
    assert!(matches!(FileFormat::try_from("toml"), Some(FileFormat::Toml)));
    assert!(matches!(FileFormat::try_from("json"), Some(FileFormat::Json)));
    assert!(FileFormat::try_from("ini").is_none());
}

#[test]
fn add_root_prefixes_unrooted_globs() {
    let dots = rotz::cli::Dots { dots: vec!["**".to_owned(), "/test03/*".to_owned()] };
    let rooted = dots.add_root();
    assert_eq!(rooted.dots, vec!["/**".to_owned(), "/test03/*".to_owned()]);
}
