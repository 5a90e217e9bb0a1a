use devset_core::path::{PathRule, RelPath};

#[test]
fn accepts() {
    for path in ["a", ".github/workflows/ci.yml", ".gitignore", "a.b/c-d_e", "devset/x"] {
        assert!(RelPath::new(path).is_ok(), "{path} should be accepted");
    }
}

#[test]
fn rejects() {
    for path in [
        "",
        "/a",
        "a//b",
        "a/",
        "./a",
        "a/../b",
        "a.",
        "a ",
        "a\\b",
        "c:x",
        "a\nb",
        ".git",
        "x/.GIT/config",
        "x/.g\u{200C}it",
        "GIT~1/x",
        ".devset/state.toml",
        "x/.DevSet",
    ] {
        assert!(RelPath::new(path).is_err(), "{path:?} should be rejected");
    }
}

#[test]
fn fold_collides_case_and_normalization() {
    let fold = |s: &str| RelPath::new(s).map(|p| p.fold()).ok();
    assert_eq!(fold("README.md"), fold("readme.md"), "case must fold");
    assert_eq!(fold("caf\u{E9}"), fold("cafe\u{301}"), "NFC and NFD must fold together");
}

#[test]
fn path_errors_name_the_rule() {
    assert_eq!(RelPath::new("").unwrap_err().rule, PathRule::Empty);
    assert_eq!(RelPath::new("/a").unwrap_err().rule, PathRule::Absolute);
    let e = RelPath::new("a//b").unwrap_err();
    assert_eq!(e.path, "a//b");
}

#[test]
fn file_names_and_extensions() {
    let p = RelPath::new("docs/README.md").unwrap();
    assert_eq!(p.file_name(), "README.md");
    assert_eq!(p.extension(), Some("md".to_owned()));
    assert_eq!(RelPath::new("justfile").unwrap().extension(), None);
    assert!(p.same(&RelPath::new("docs/README.md").unwrap()));
}
