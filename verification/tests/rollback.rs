use devset_core::digest::Digest;
use devset_core::merge::MergeError;
use devset_core::path::RelPath;
use devset_core::rollback::{Change, Location, Revert, may_apply, rank, reverts};

#[test]
fn locations_round_trip_through_their_keys() {
    let path = || RelPath::new(".github/ci.yml").expect("a valid path");
    for location in [Location::File(path()), Location::Sidecar(path()), Location::Record("lock.toml".to_owned())] {
        assert_eq!(Location::parse(&location.to_string()), Some(location), "as written");
    }
    for key in [".devset/base/x", ".devset/conflicts/.devset/undo.toml", "../escape"] {
        assert_eq!(Location::parse(key), None, "{key} names no location");
    }
}

#[test]
fn reverts_restore_remove_or_leave() {
    let f = |p: &str| Location::File(RelPath::new(p).unwrap());
    let d = |s: &[u8]| Some(Digest::of(s));
    let changes = vec![
        (f("a"), Change { before: d(b"old"), after: d(b"new") }),
        (f("b"), Change { before: None, after: d(b"new") }),
        (f("c"), Change { before: d(b"old"), after: d(b"new") }),
        (f("e"), Change { before: d(b"old"), after: d(b"new") }),
    ];
    let now = vec![d(b"new"), d(b"new"), d(b"old"), d(b"mine")];
    let (reverts, changed) = reverts(&changes, &now);
    assert_eq!(
        reverts,
        vec![
            Revert::Restore(RelPath::new("a").unwrap()),
            Revert::Remove(RelPath::new("b").unwrap()),
            Revert::Restore(RelPath::new("e").unwrap()),
        ],
        "c is already as before"
    );
    assert_eq!(changed, vec!["e".to_owned()], "e changed since the update");
    assert_eq!(may_apply(changed.clone(), true), Ok(()));
    assert_eq!(may_apply(changed, false), Err(MergeError::ChangedSince { paths: vec!["e".to_owned()] }));
}

#[test]
fn records_restore_last_with_state() {
    assert_eq!(rank(&Location::File(RelPath::new("a").unwrap())), 0);
    assert_eq!(rank(&Location::Record("config.toml".to_owned())), 1);
    assert_eq!(rank(&Location::Record("state.toml".to_owned())), 4);
}
