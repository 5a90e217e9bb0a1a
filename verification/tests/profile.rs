use devset_core::profile::FeatureRef;

#[test]
fn feature_refs() {
    for (written, want) in [
        ("katex", "Feature"),
        ("dep:lychee", "Dep"),
        ("github-ci/pages", "Of"),
        ("mdbook?/agents", "Weak"),
    ] {
        let parsed = FeatureRef::parse(written).expect("a reference");
        let kind = match &parsed {
            FeatureRef::Feature(_) => "Feature",
            FeatureRef::Dep(_) => "Dep",
            FeatureRef::Of { weak: false, .. } => "Of",
            FeatureRef::Of { weak: true, .. } => "Weak",
        };
        assert_eq!(kind, want, "{written}");
        assert_eq!(parsed.to_string(), written, "written as read");
    }
    for bad in ["dep:", "a/b/c", "?x", "a?/", "x?"] {
        assert!(FeatureRef::parse(bad).is_err(), "{bad:?} is not a reference");
    }
}

use devset_core::profile::{Features, FileSpec, Manifest, Meta, Policy, Requirement, RequirementSpec, When, compatibility};
use devset_core::name::{FeatureName, ProfileName, ScaffoldName};
use devset_core::part::Scope;
use devset_core::path::RelPath;
use devset_core::settings::MergeSpec;
use devset_core::errors::ProfileError;

fn manifest() -> Manifest {
    Manifest {
        profile: Meta { name: ProfileName::new("p").unwrap(), version: None, description: None, devset: None },
        requires: vec![],
        features: Features::default(),
        vars: vec![],
        merge: MergeSpec::default(),
        scaffolds: vec![],
        files: vec![],
    }
}

fn file() -> FileSpec {
    FileSpec {
        policy: None,
        validate: None,
        template: false,
        scope: Scope::File,
        comment: None,
        executable: false,
        scaffold: None,
        starter: None,
        when: When::default(),
    }
}

fn message(m: &Manifest) -> String {
    match m.check("profile.toml") {
        Err(ProfileError::Manifest { message, .. }) => message,
        other => panic!("{other:?}"),
    }
}

#[test]
fn features_read_their_table() {
    let table = vec![
        ("default".to_owned(), vec!["katex".to_owned()]),
        ("katex".to_owned(), vec![]),
        ("api".to_owned(), vec!["katex".to_owned(), "dep:lychee".to_owned()]),
    ];
    let f = Features::from_table(&table).unwrap();
    assert_eq!(f.default.len(), 1);
    assert_eq!(f.declared.len(), 2, "every feature but `default`");
    assert!(Features::from_table(&vec![("a b".to_owned(), vec![])]).is_err());
}

#[test]
fn mistakes_are_named() {
    let mut m = manifest();
    m.features = Features::from_table(&vec![("default".to_owned(), vec!["x".to_owned()])]).unwrap();
    assert!(message(&m).contains("`default` lists `x`"));
    let mut m = manifest();
    m.features = Features::from_table(&vec![("a".to_owned(), vec!["b".to_owned()])]).unwrap();
    assert!(message(&m).contains("[features] lacks `b`"));
    let mut m = manifest();
    m.features = Features::from_table(&vec![("a".to_owned(), vec!["dep:q".to_owned()])]).unwrap();
    assert!(message(&m).contains("[requires] lacks `q`"));
    let mut m = manifest();
    m.requires = vec![(ProfileName::new("q").unwrap(), Requirement { features: vec![], default_features: true, optional: false, source: None })];
    m.features = Features::from_table(&vec![("a".to_owned(), vec!["dep:q".to_owned()])]).unwrap();
    assert!(message(&m).contains("not an optional requirement"));
    let mut m = manifest();
    m.features = Features::from_table(&vec![("a".to_owned(), vec!["q/f".to_owned()])]).unwrap();
    assert!(message(&m).contains("[requires] lacks `q`"));
    let mut m = manifest();
    let mut f = file();
    f.when.features = vec![FeatureName::new("x").unwrap()];
    m.files = vec![(RelPath::new("a").unwrap(), f)];
    assert!(message(&m).contains("feature `x`"));
    let mut m = manifest();
    let mut f = file();
    f.scaffold = Some(ScaffoldName::new("s").unwrap());
    m.files = vec![(RelPath::new("a").unwrap(), f)];
    assert!(message(&m).contains("scaffold `s` is not"));
    let mut m = manifest();
    m.scaffolds = vec![(ScaffoldName::new("s").unwrap(), Default::default())];
    let mut f = file();
    f.scaffold = Some(ScaffoldName::new("s").unwrap());
    f.policy = Some(Policy::Owned);
    m.files = vec![(RelPath::new("a").unwrap(), f)];
    assert!(message(&m).contains("`once`"));
    let mut m = manifest();
    let mut f = file();
    f.starter = Some(RelPath::new("s").unwrap());
    m.files = vec![(RelPath::new("a").unwrap(), f)];
    assert!(message(&m).contains("`starter` is for a part"));
    let spec = RequirementSpec { features: vec![], default_features: true, optional: false, git: None, tag: Some("v1".to_owned()), branch: None, rev: None, path: None };
    assert!(Requirement::from_spec(spec).unwrap_err().contains("with `git`"));
    assert!(manifest().check("profile.toml").is_ok());
}

#[test]
fn a_scaffold_file_is_once_and_paths_are_listed_once() {
    let mut f = file();
    assert_eq!(f.policy(), Policy::Owned);
    f.scaffold = Some(ScaffoldName::new("s").unwrap());
    assert_eq!(f.policy(), Policy::Once);
    let mut m = manifest();
    let mut part = file();
    part.scope = Scope::Keys;
    part.starter = Some(RelPath::new("book.starter.toml").unwrap());
    m.files = vec![(RelPath::new("a").unwrap(), file()), (RelPath::new("book.toml").unwrap(), part)];
    assert_eq!(m.payload_paths().len(), 3, "every entry's file, and the starter");
}

#[test]
fn a_devset_requirement_decides_compatibility() {
    let name = ProfileName::new("p").unwrap();
    assert!(compatibility(&name, true, String::new()).is_ok());
    let refused = compatibility(&name, false, ">=9".to_owned());
    assert!(matches!(&refused, Err(devset_core::errors::ProfileError::Incompatible { profile, requirement }) if profile.as_str() == "p" && requirement == ">=9"), "{refused:?}");
    let meta = |req: &str| Meta { name: name.clone(), version: None, description: None, devset: Some(req.to_owned()) };
    assert!(meta(">=0.1").compatible().is_ok());
    let refused = meta(">=99").compatible();
    assert!(matches!(&refused, Err(devset_core::errors::ProfileError::Incompatible { requirement, .. }) if requirement == ">=99"), "{refused:?}");
    let shown = meta("1.2").compatible();
    assert!(matches!(&shown, Err(devset_core::errors::ProfileError::Incompatible { requirement, .. }) if requirement == "^1.2"), "{shown:?}");
    let unread = meta("not a requirement").compatible();
    assert!(matches!(&unread, Err(devset_core::errors::ProfileError::Incompatible { requirement, .. }) if requirement == "not a requirement"), "{unread:?}");
    assert!(Meta { name: name.clone(), version: None, description: None, devset: None }.compatible().is_ok());
}
