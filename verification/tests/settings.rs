use devset_core::merge::Driver;
use devset_core::name::ProfileName;
use devset_core::settings::{MergeSpec, OnConflict, Settings, agreed};

fn layer(name: &str, on_conflict: Option<OnConflict>, driver: Option<&str>) -> (ProfileName, MergeSpec) {
    (ProfileName::new(name).unwrap(), MergeSpec { on_conflict, driver: driver.map(|d| Driver::parse(d).unwrap()) })
}

#[test]
fn layers_must_agree_unless_the_target_decides() {
    let layers = vec![layer("a", Some(OnConflict::ApplyNone), None), layer("b", None, None), layer("c", Some(OnConflict::ApplyNone), None)];
    assert_eq!(agreed(&layers).ok().flatten(), Some(OnConflict::ApplyNone));
    let settings = Settings::compose(&layers, &MergeSpec::default()).ok().unwrap();
    assert_eq!(settings.on_conflict, OnConflict::ApplyNone);
    assert!(matches!(settings.driver, Driver::Builtin));
    let split = vec![layer("a", Some(OnConflict::ApplyNone), None), layer("b", Some(OnConflict::ApplyOthers), None)];
    let d = agreed(&split).err().expect("they disagree");
    assert_eq!((d.first.as_str(), d.second.as_str()), ("a", "b"));
    let decided = MergeSpec { on_conflict: Some(OnConflict::ApplyOthers), driver: None };
    assert_eq!(Settings::compose(&split, &decided).ok().unwrap().on_conflict, OnConflict::ApplyOthers);
    assert_eq!(Settings::compose(&vec![], &MergeSpec::default()).ok().unwrap().on_conflict, OnConflict::ApplyOthers, "devset's default");
}

#[test]
fn drivers_are_only_suggested() {
    let layers = vec![layer("a", None, Some("mergiraf merge %O %A %B")), layer("b", None, None)];
    let suggested = Settings::suggestions(&layers, &MergeSpec::default());
    assert_eq!(suggested.len(), 1);
    assert_eq!(suggested[0].layer.as_str(), "a");
    let configured = MergeSpec { on_conflict: None, driver: Some(Driver::parse("tool %A").unwrap()) };
    assert!(Settings::suggestions(&layers, &configured).is_empty());
}
