use devset_core::collection::profiles;

#[test]
fn a_manifest_in_a_payload_is_not_a_profile() {
    let found = profiles(
        ["b", "a", "a/files/x", "a/extra", "files/y", "c/files", ""].map(str::to_owned).to_vec(),
    );
    assert_eq!(found, ["", "a", "a/extra", "b", "c/files"], "files/ under a profile is its payload");
}

use devset_core::collection::{Index, join, label, manifest};
use devset_core::errors::ProfileError;
use devset_core::name::ProfileName;
use devset_core::source::Source;

#[test]
fn manifests_and_labels() {
    assert_eq!(manifest("").unwrap().as_str(), "profile.toml");
    assert_eq!(manifest("a/b").unwrap().as_str(), "a/b/profile.toml");
    assert_eq!(join("dir", "f"), "dir/f");
    assert_eq!(join("dir/", "f"), "dir/f");
    assert_eq!(join("", "f"), "f");
    assert_eq!(label(&Source::Dir("../p".into()), "x/profile.toml"), "../p/x/profile.toml");
}

#[test]
fn names_are_unique_in_a_source() {
    let n = |s: &str| ProfileName::new(s).unwrap();
    let index = Index::new(None, vec![("b".to_owned(), n("rust")), ("".to_owned(), n("base"))], "../p").ok().unwrap();
    assert_eq!(index.names(), vec!["base".to_owned(), "rust".to_owned()]);
    assert_eq!(index.find(&n("rust")), Some("b".to_owned()));
    assert_eq!(index.find(&n("none")), None);
    match Index::new(None, vec![("a".to_owned(), n("x")), ("b".to_owned(), n("x"))], "../p") {
        Err(e @ ProfileError::SameNameInSource { .. }) => {
            assert_eq!(e.to_string(), "two profiles in ../p are named x: a and b");
        },
        other => panic!("{other:?}"),
    }
}
