use devset_core::name::{FeatureName, NameKind, NameRule, ProfileName, ProfileRef, ScaffoldId};

#[test]
fn names() {
    for ok in ["rust", "cargo-deny", "a_b", "x1", "1x"] {
        assert!(ProfileName::new(ok).is_ok(), "{ok} is a name");
    }
    for bad in ["", "-x", "_x", "a/b", "a b", "a.b", "é"] {
        assert!(ProfileName::new(bad).is_err(), "{bad:?} is not");
    }
    assert!(FeatureName::new("default").is_err(), "`default` names the list");
    assert!(ProfileName::new("default").is_ok(), "which a profile may be");
}

#[test]
fn profile_refs() {
    let at = ProfileRef::parse("atxp/rust").expect("a reference");
    assert_eq!((at.source.as_str(), at.profile.as_str()), ("atxp", "rust"), "its parts");
    assert_eq!(at.to_string(), "atxp/rust", "written as read");
    for bad in ["rust", "atxp/", "/rust", "a/b/c"] {
        assert!(ProfileRef::parse(bad).is_err(), "{bad} is not a reference");
    }
}

#[test]
fn name_errors_say_which_rule() {
    let e = ProfileName::new("a b").unwrap_err();
    assert_eq!(e.kind, NameKind::Profile);
    assert_eq!(e.rule, NameRule::Chars);
    assert_eq!(e.message(), "invalid profile name \"a b\": use letters, digits, `-` and `_`");
    let e = ProfileName::new("-x").unwrap_err();
    assert_eq!(e.rule, NameRule::Begin);
    let e = FeatureName::new("default").unwrap_err();
    assert_eq!(e.rule, NameRule::Default);
    let e = ProfileRef::parse("rust").unwrap_err();
    assert_eq!((e.kind, e.rule), (NameKind::Layer, NameRule::Layer));
    let e = ScaffoldId::parse("rust").unwrap_err();
    assert_eq!((e.kind, e.rule), (NameKind::Scaffold, NameRule::Group));
}

#[test]
fn scaffold_ids_round_trip() {
    let id = ScaffoldId::parse("mdbook/book").expect("an id");
    assert_eq!((id.profile.as_str(), id.group.as_str()), ("mdbook", "book"));
    assert_eq!(id.to_string(), "mdbook/book");
    assert!(id.same(&ScaffoldId::parse("mdbook/book").unwrap()));
    assert!(!id.same(&ScaffoldId::parse("mdbook/other").unwrap()));
}
