use devset_core::errors::{ProfileError, TargetError, list, list_chain, plural};
use devset_core::name::ProfileName;
use devset_core::part::Scope;
use devset_core::path::RelPath;

fn name(n: &str) -> ProfileName {
    ProfileName::new(n).unwrap()
}

#[test]
fn lists_read_as_prose() {
    assert_eq!(list(&vec![]), "");
    assert_eq!(list(&vec!["a".to_owned()]), "a");
    assert_eq!(list(&vec!["a".to_owned(), "b".to_owned(), "c".to_owned()]), "a, b and c");
    assert_eq!(plural(1, "file"), "1 file");
    assert_eq!(plural(12, "file"), "12 files");
    assert_eq!(plural(0, "file"), "0 files");
    assert_eq!(list_chain(&vec![name("a"), name("b"), name("a")]), "a → b → a");
}

#[test]
fn profile_errors_name_the_layers() {
    let path = RelPath::new("Cargo.toml").unwrap();
    let e = ProfileError::Collision { path: path.clone(), layers: vec![name("a"), name("b")] };
    assert_eq!(e.to_string(), "Cargo.toml is provided by a and b");
    let e = ProfileError::Scopes { path, layers: vec![(name("a"), Scope::File), (name("b"), Scope::Keys)] };
    assert_eq!(e.to_string(), "Cargo.toml is owned in different scopes: `file` by a and `keys` by b");
    let e = ProfileError::Cycle { chain: vec![name("a"), name("b"), name("a")] };
    assert_eq!(e.to_string(), "requirements form a cycle: a → b → a");
}

#[test]
fn target_errors_say_what_is_missing() {
    assert_eq!(TargetError::Busy.to_string(), "another devset is running in this target");
    let e = TargetError::Ambiguous { location: "../p".to_owned(), profiles: vec![name("a"), name("b")] };
    assert_eq!(e.to_string(), "../p holds 2 profiles; name the one to add");
}
