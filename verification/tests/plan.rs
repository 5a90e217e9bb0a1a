use devset_core::digest::Fingerprint;
use devset_core::format::Format;
use devset_core::merge::MergeError;
use devset_core::path::RelPath;
use devset_core::plan::{Action, Composed, Mode, Route, Step, held, key_list, merge_keys, plan_gate, routes, settle_parts};
use devset_core::profile::Policy;
use devset_core::settings::OnConflict;
use devset_core::survey::{Entry, Part, Survey, Want};
use devset_core::part::Scope;

fn fp(name: &str) -> Fingerprint {
    Fingerprint::of(match name {
        "p" => b"profile\n",
        "p~" => b"profile  \r\n\n",
        "o" => b"old\n",
        _ => b"edited\n",
    })
}

fn entry(policy: Policy, found: Option<&str>, record: Option<&str>) -> Entry {
    Entry {
        path: RelPath::new("f").unwrap(),
        part: None,
        want: Some(Want { layer: 0, policy, validate: Format::Unchecked, executable: false, fingerprint: fp("p") }),
        record: record.map(fp),
        recorded: record.map(|_| policy),
        found: found.map(fp),
        conflict: false,
        present: found.is_some(),
        gate: None,
        keys: Vec::new(),
    }
}

#[test]
fn decision_table() {
    let table = [
        (Policy::Owned, None, None, Action::Write, Action::Write),
        (Policy::Owned, None, Some("p"), Action::Keep, Action::Write),
        (Policy::Owned, Some("p"), Some("p"), Action::Keep, Action::Keep),
        (Policy::Owned, Some("p~"), Some("p"), Action::Keep, Action::Keep),
        (Policy::Owned, Some("p~"), Some("o"), Action::Record, Action::Record),
        (Policy::Owned, Some("x"), None, Action::Record, Action::Write),
        (Policy::Owned, Some("o"), Some("o"), Action::Write, Action::Write),
        (Policy::Owned, Some("x"), Some("p"), Action::Keep, Action::Write),
        (Policy::Once, None, None, Action::Write, Action::Write),
        (Policy::Once, None, Some("p"), Action::Keep, Action::Keep),
        (Policy::Once, Some("x"), None, Action::Record, Action::Record),
        (Policy::Once, Some("o"), Some("o"), Action::Keep, Action::Keep),
        (Policy::Once, Some("x"), Some("p"), Action::Keep, Action::Keep),
        (Policy::Merge, Some("x"), Some("o"), Action::Merge, Action::Merge),
        (Policy::Merge, Some("x"), Some("p"), Action::Keep, Action::Keep),
        (Policy::Merge, Some("o"), Some("o"), Action::Write, Action::Write),
    ];
    for (policy, found, record, apply, force) in table {
        let entry = entry(policy, found, record);
        let case = format!("{policy:?} found={found:?} record={record:?}");
        assert_eq!(entry.action(Mode::Apply), apply, "apply: {case}");
        assert_eq!(entry.action(Mode::Force), force, "force: {case}");
    }
}

#[test]
fn a_dropped_file_goes_unless_edited_or_the_targets() {
    let table = [
        (Policy::Owned, Some("p"), Some("p"), Action::Remove),
        (Policy::Owned, Some("p~"), Some("p"), Action::Remove),
        (Policy::Merge, Some("p"), Some("p"), Action::Remove),
        (Policy::Owned, Some("x"), Some("p"), Action::Untrack),
        (Policy::Owned, None, Some("p"), Action::Untrack),
        (Policy::Once, Some("p"), Some("p"), Action::Untrack),
    ];
    for (policy, found, record, action) in table {
        let entry = Entry { want: None, ..entry(policy, found, record) };
        let case = format!("{policy:?} found={found:?} record={record:?}");
        assert_eq!(entry.action(Mode::Apply), action, "apply: {case}");
        assert_eq!(entry.action(Mode::Force), action, "force: {case}");
    }
}

#[test]
fn conflicts_gate_a_plan() {
    let mut waiting = entry(Policy::Owned, Some("x"), Some("p"));
    waiting.conflict = true;
    let mut twice = entry(Policy::Owned, Some("x"), Some("p"));
    twice.conflict = true;
    let entries = vec![waiting, twice];
    match plan_gate(&entries, Mode::Apply) {
        Err(MergeError::Unresolved { paths }) => assert_eq!(paths.len(), 1, "one path, once"),
        other => panic!("{other:?}"),
    }
    assert_eq!(plan_gate(&entries, Mode::Continue), Ok(()));
    let none = vec![entry(Policy::Owned, None, None)];
    assert_eq!(plan_gate(&none, Mode::Continue), Err(MergeError::NothingToContinue));
    assert_eq!(plan_gate(&none, Mode::Force), Ok(()));
}

#[test]
fn a_whole_file_decides_its_dropped_parts() {
    let whole = entry(Policy::Owned, None, None);
    let mut part = entry(Policy::Owned, None, Some("p"));
    part.want = None;
    part.part = Some(Part { owner: "lints".to_owned(), scope: Scope::Keys });
    let routes = routes(&vec![whole, part]);
    assert_eq!(routes, vec![Route::Whole, Route::Untracked]);
}

#[test]
fn held_only_under_apply_none() {
    let step = Step { entry: entry(Policy::Owned, None, None), action: Action::Conflict, note: None };
    let steps = vec![step];
    assert!(held(&steps, OnConflict::ApplyNone));
    assert!(!held(&steps, OnConflict::ApplyOthers));
}

#[test]
fn drift_and_unfinished_updates_are_seen() {
    let edited = entry(Policy::Owned, Some("x"), Some("p"));
    let survey = Survey { entries: vec![edited] };
    assert!(survey.drifted(), "force would restore the edit");
    assert!(!survey.unfinished());
    let mut waiting = entry(Policy::Owned, Some("p"), Some("p"));
    waiting.conflict = true;
    let survey = Survey { entries: vec![waiting] };
    assert!(survey.unfinished());
    assert!(!survey.drifted());
}

#[test]
fn keeps_follows_the_action() {
    let e = entry(Policy::Owned, None, None);
    assert!(e.keeps(true), "written when it applies");
    assert!(!e.keeps(false), "absent when it does not");
}

#[test]
fn composed_parts_conflict_together() {
    let step = |action: Action| Step { entry: entry(Policy::Merge, None, None), action, note: None };
    let mut steps = vec![step(Action::Write), step(Action::Keep)];
    assert_eq!(settle_parts(&mut steps, false, false, None, false), Composed::Unchanged);
    assert_eq!(settle_parts(&mut steps, true, false, None, false), Composed::Merged);
    assert_eq!(settle_parts(&mut steps, false, true, None, true), Composed::Gone);
    assert_eq!(settle_parts(&mut steps, true, false, Some("bad TOML".to_owned()), false), Composed::Conflicted);
    assert_eq!((steps[0].action, steps[0].note.as_deref()), (Action::Conflict, Some("bad TOML")));
    assert_eq!((steps[1].action, steps[1].note.as_deref()), (Action::Keep, None));
    let mut steps = vec![step(Action::Conflict), step(Action::Merge)];
    assert_eq!(settle_parts(&mut steps, true, false, None, false), Composed::Conflicted);
    assert_eq!(steps[1].note.as_deref(), Some("waits for the conflict in another part of the file"));
}

#[test]
fn keys_both_sides_changed_conflict_by_name() {
    let key = |k: &[&str]| k.iter().map(|s| (*s).to_owned()).collect::<Vec<String>>();
    let leaf = |k: &[&str], v: &str| (key(k), v.to_owned());
    let base = vec![leaf(&["a"], "1"), leaf(&["b"], "1")];
    let ours = vec![leaf(&["a"], "2"), leaf(&["b"], "1")];
    let theirs = vec![leaf(&["a"], "3"), leaf(&["b"], "4")];
    let keys = vec![key(&["a"]), key(&["b"])];
    let m = merge_keys(&base, &ours, &theirs, &keys);
    assert_eq!(m.action, Action::Conflict);
    assert_eq!(m.note.as_deref(), Some("both changed `a`"));
    assert_eq!((m.base, m.theirs), (vec![leaf(&["a"], "1")], vec![leaf(&["a"], "3")]));
    let clean = merge_keys(&base, &base, &theirs, &keys);
    assert_eq!((clean.action, clean.note), (Action::Merge, None));
    assert_eq!(String::from_utf8(clean.content).unwrap(), "[\"a\"]\t3\n[\"b\"]\t4\n");
    let many: Vec<Vec<String>> = ["a", "b", "c", "d", "e"].iter().map(|k| key(&[k])).collect();
    assert_eq!(key_list(&many), "`a`, `b`, `c` and 2 more");
    assert_eq!(key_list(&many[..1].to_vec()), "`a`");
}

#[test]
fn a_merge_that_does_not_parse_waits_as_a_conflict() {
    let (action, note) = devset_core::plan::merged_whole(None, false, b"a = 1\n", b"a = 2\n", devset_core::format::Format::Toml, b"a = = 3\n");
    assert_eq!(action, devset_core::plan::Action::Conflict);
    assert!(note.unwrap().starts_with("merged, but invalid: "));
    let (action, note) = devset_core::plan::merged_whole(None, false, b"a = 1\n", b"a = 2\n", devset_core::format::Format::Toml, b"a = 3\n");
    assert_eq!(action, devset_core::plan::Action::Merge);
    assert!(note.is_none());
    let (action, note) = devset_core::plan::merged_whole(Some("both changed".to_owned()), false, b"x", b"y", devset_core::format::Format::Unchecked, b"z");
    assert_eq!((action, note.as_deref()), (devset_core::plan::Action::Conflict, Some("both changed")));
}

#[test]
fn a_merge_without_its_base_waits_unless_binary() {
    let (action, note) = devset_core::plan::merged_whole(None, true, b"a\n", b"b\n", devset_core::format::Format::Unchecked, b"b\n");
    assert_eq!(action, devset_core::plan::Action::Conflict);
    assert_eq!(note.as_deref(), Some("its recorded base is missing, so it merged without one"));
    let (action, _) = devset_core::plan::merged_whole(None, true, b"a\0", b"b\n", devset_core::format::Format::Unchecked, b"b\n");
    assert_eq!(action, devset_core::plan::Action::Merge);
}
