use devset_core::digest::{Digest, Fingerprint};
use devset_core::errors::TargetError;
use devset_core::name::{FeatureName, ProfileName, ProfileRef, SourceName};
use devset_core::part::{Scope, Slot};
use devset_core::path::RelPath;
use devset_core::profile::Policy;
use devset_core::source::{GitRef, Oid, Source};
use devset_core::target::{Config, LayerSpec, Lock, Locked, Override, Record, State, label};

fn source(name: &str) -> SourceName {
    SourceName::new(name).unwrap()
}

fn profile(name: &str) -> ProfileName {
    ProfileName::new(name).unwrap()
}

fn feature(name: &str) -> FeatureName {
    FeatureName::new(name).unwrap()
}

fn layer(written: &str) -> LayerSpec {
    LayerSpec::new(ProfileRef::parse(written).unwrap())
}

fn names(features: &[FeatureName]) -> Vec<&str> {
    features.iter().map(FeatureName::as_str).collect()
}

#[test]
fn sources_and_layers_are_added_once() {
    let mut config = Config::default();
    assert!(matches!(config.add_source(source("house"), Source::Dir("../p".into())), Ok(true)));
    assert!(config.add_layer(layer("house/base")).is_ok());
    assert!(matches!(config.add_source(source("house"), Source::Dir("../p".into())), Ok(false)), "naming a source again as it is changes nothing");
    let other = config.add_source(source("house"), Source::Dir("../q".into()));
    assert!(matches!(&other, Err(TargetError::SourceExists { location, .. }) if location == "../p"), "{other:?}");
    let twice = config.add_layer(layer("house/base"));
    assert!(matches!(twice, Err(TargetError::DuplicateLayer { .. })), "{twice:?}");
    let unknown = config.add_layer(layer("nope/other"));
    let Err(e @ TargetError::NoSuchSource { .. }) = unknown else { panic!("{unknown:?}") };
    assert_eq!(e.to_string(), "no source is named nope: the layer nope/other names it");
    assert_eq!(config.layers.len(), 1);
}

#[test]
fn sources_keep_name_order() {
    let mut config = Config::default();
    for name in ["m", "c", "x", "a"] {
        assert!(matches!(config.add_source(source(name), Source::Dir(name.into())), Ok(true)));
    }
    let order: Vec<&str> = config.sources.iter().map(|(n, _)| n.as_str()).collect();
    assert_eq!(order, ["a", "c", "m", "x"]);
}

#[test]
fn features_are_turned_on_and_off() {
    let mut config = Config::default();
    config.add_source(source("house"), Source::Dir("p".into())).unwrap();
    let mut base = layer("house/base");
    base.features = vec![feature("docs")];
    config.add_layer(base).unwrap();
    let (added, defaults) = config.turn_on(&profile("base"), &vec![feature("docs"), feature("ci")], Some(false)).unwrap();
    assert_eq!((names(&added), defaults), (vec!["ci"], Some(false)), "only what changes");
    assert_eq!(names(&config.layers[0].features), ["docs", "ci"]);
    assert!(!config.layers[0].default_features);
    let (added, defaults) = config.turn_on(&profile("base"), &vec![feature("ci")], Some(false)).unwrap();
    assert_eq!((added.len(), defaults), (0, None), "nothing changes");
    let missing = config.turn_off(&profile("base"), &vec![feature("ci"), feature("lint")]);
    assert!(matches!(&missing, Err(TargetError::NotListed { feature, .. }) if feature.as_str() == "lint"), "{missing:?}");
    assert_eq!(names(&config.layers[0].features), ["docs", "ci"], "a refusal changes nothing");
    config.turn_off(&profile("base"), &vec![feature("docs")]).unwrap();
    assert_eq!(names(&config.layers[0].features), ["ci"]);
    let nowhere = config.turn_on(&profile("other"), &Vec::new(), None);
    let Err(e @ TargetError::NoSuchLayer { .. }) = nowhere else { panic!("{nowhere:?}") };
    assert_eq!(e.to_string(), "no layer is named other");
}

#[test]
fn a_removed_layer_takes_the_overrides_that_pick_it() {
    let mut config = Config::default();
    config.add_source(source("house"), Source::Dir("p".into())).unwrap();
    config.add_layer(layer("house/base")).unwrap();
    config.add_layer(layer("house/rust")).unwrap();
    let picks = |from: Option<&str>| Override { from: from.map(profile), policy: None, validate: None };
    config.files = vec![
        (RelPath::new("a").unwrap(), picks(Some("base"))),
        (RelPath::new("b").unwrap(), picks(Some("rust"))),
        (RelPath::new("c").unwrap(), picks(None)),
    ];
    assert!(!config.remove_layer(&profile("none")));
    assert!(config.remove_layer(&profile("base")));
    assert_eq!(config.layers.len(), 1);
    assert_eq!(config.layers[0].profile.profile.as_str(), "rust");
    let kept: Vec<&str> = config.files.iter().map(|(p, _)| p.as_str()).collect();
    assert_eq!(kept, ["b", "c"]);
    config.remove_override(&RelPath::new("c").unwrap());
    let kept: Vec<&str> = config.files.iter().map(|(p, _)| p.as_str()).collect();
    assert_eq!(kept, ["b"]);
    assert_eq!(config.sources.len(), 1, "its source stays");
}

#[test]
fn a_layer_listed_twice_is_refused() {
    let mut config = Config::default();
    config.layers = vec![layer("a/x"), layer("b/y"), layer("c/x")];
    let twice = config.checked(false);
    assert!(matches!(&twice, Err(TargetError::LayerTwice { layer }) if layer.as_str() == "x"), "{twice:?}");
    assert!(matches!(Config::default().checked(true), Err(TargetError::OldConfig)));
    assert!(Config::default().checked(false).is_ok());
    assert_eq!(label("config.toml"), ".devset/config.toml");
}

#[test]
fn the_lock_pins_by_source() {
    let git = |url: &str| Source::Git { url: url.to_owned(), at: GitRef::Head, path: None };
    let rev = Oid::new(&"a".repeat(40)).unwrap();
    let locked = |name: &str, source: Source, rev: Option<Oid>, bytes: &[u8]| Locked {
        name: profile(name),
        rev,
        digest: Digest::of(bytes),
        source,
        features: Vec::new(),
    };
    let lock = Lock::new(vec![
        locked("a", git("u"), None, b"1"),
        locked("b", git("u"), Some(rev.clone()), b"2"),
        locked("c", git("v"), None, b"3"),
    ]);
    assert_eq!(lock.pinned(&git("u")).map(Oid::as_str), Some(rev.as_str()));
    assert_eq!(lock.pinned(&git("v")), None);
    assert_eq!(lock.locked(&git("v"), &profile("c")), Some(Digest::of(b"3")));
    assert_eq!(lock.locked(&git("u"), &profile("c")), None);
}

#[test]
fn a_state_gives_back_its_records_whole_files_first() {
    let record = |scope: Scope, bytes: &[u8]| Record { scope, fingerprint: Fingerprint::of(bytes), policy: Policy::Owned };
    let path = |p: &str| RelPath::new(p).unwrap();
    let records = vec![
        (Slot::whole(path("a")), record(Scope::File, b"1")),
        (Slot { path: path("a"), part: Some("p".into()) }, record(Scope::Block, b"2")),
        (Slot::whole(path("b")), record(Scope::File, b"3")),
    ];
    let state = State::new(records, Vec::new());
    let back = state.records();
    let slots: Vec<(&str, Option<&str>)> = back.iter().map(|(s, _)| (s.path.as_str(), s.part.as_deref())).collect();
    assert_eq!(slots, [("a", None), ("b", None), ("a", Some("p"))]);
    assert_eq!(back[2].1.scope, Scope::Block);
    assert_eq!(back[1].1.fingerprint, Fingerprint::of(b"3"));
}
