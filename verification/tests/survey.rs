use devset_core::part::Shape;
use devset_core::part::Syntax;
use devset_core::part::block::{Comment, Markers};
use devset_core::commit::{destinations, record, records};
use devset_core::digest::Fingerprint;
use devset_core::format::Format;
use devset_core::part::{Scope, Slot};
use devset_core::path::RelPath;
use devset_core::plan::{Action, Step};
use devset_core::profile::Policy;
use devset_core::survey::{Recorded, Wanted, Want, entries_of};
use devset_core::target::Record;

fn slot(p: &str, part: Option<&str>) -> Slot {
    Slot { path: RelPath::new(p).unwrap(), part: part.map(str::to_owned) }
}

fn want(policy: Policy) -> Want {
    Want { layer: 0, policy, validate: Format::Unchecked, executable: false, fingerprint: Fingerprint::of(b"p\n") }
}

#[test]
fn entries_pair_wants_with_records_in_slot_order() {
    let wants = vec![
        Wanted { slot: slot("b", None), scope: Scope::File, want: want(Policy::Owned), keys: vec![] },
        Wanted { slot: slot("a", Some("lints")), scope: Scope::Keys, want: want(Policy::Owned), keys: vec![vec!["x".to_owned()]] },
    ];
    let records = vec![
        Recorded { slot: slot("a", Some("lints")), record: Record { scope: Scope::Block, fingerprint: Fingerprint::of(b"o\n"), policy: Policy::Owned } },
        Recorded { slot: slot("a", None), record: Record { scope: Scope::File, fingerprint: Fingerprint::of(b"o\n"), policy: Policy::Merge } },
    ];
    let entries = entries_of(&wants, &records);
    let seen: Vec<(&str, Option<&str>, bool, bool)> = entries
        .iter()
        .map(|e| (e.path.as_str(), e.part.as_ref().map(|p| p.owner.as_str()), e.want.is_some(), e.record.is_some()))
        .collect();
    assert_eq!(
        seen,
        vec![("a", None, false, true), ("a", Some("lints"), true, false), ("b", None, true, false)],
        "a part that changed scope has no base; the whole file before its parts"
    );
    assert_eq!(entries[1].keys.len(), 1);
}

#[test]
fn commits_record_what_they_write() {
    let e = |policy: Policy| devset_core::survey::Entry {
        path: RelPath::new("f").unwrap(),
        part: None,
        want: Some(want(policy)),
        record: Some(Fingerprint::of(b"o\n")),
        recorded: Some(Policy::Owned),
        found: None,
        conflict: false,
        present: true,
        gate: None,
        keys: vec![],
    };
    let written = Step { entry: e(Policy::Merge), action: Action::Write, note: None };
    let rec = record(&written).unwrap();
    assert!(rec.fingerprint.same(&Fingerprint::of(b"p\n")) && rec.policy == Policy::Merge);
    let kept = Step { entry: e(Policy::Once), action: Action::Keep, note: None };
    let rec = record(&kept).unwrap();
    assert!(rec.fingerprint.same(&Fingerprint::of(b"o\n")) && rec.policy == Policy::Once, "the old record, under the policy now");
    let gone = Step { entry: e(Policy::Owned), action: Action::Remove, note: None };
    assert!(record(&gone).is_none());
    let steps = vec![written, kept, gone];
    assert_eq!(records(&steps).len(), 2);
    let merged = vec![RelPath::new("f").unwrap()];
    let (payloads, files, sidecars) = destinations(&steps, &merged);
    assert!(payloads.is_empty(), "a merged file is written from the merge");
    assert_eq!((files, sidecars), (vec![0], vec![]));
}

fn bare(path: &str, part: Option<(&str, Scope)>) -> devset_core::survey::Entry {
    devset_core::survey::Entry {
        path: RelPath::new(path).unwrap(),
        part: part.map(|(owner, scope)| devset_core::survey::Part { owner: owner.to_owned(), scope }),
        want: None,
        record: Some(Fingerprint::of(b"o\n")),
        recorded: Some(Policy::Owned),
        found: None,
        conflict: false,
        present: true,
        gate: None,
        keys: vec![vec!["a".to_owned()]],
    }
}

#[test]
fn a_whole_file_is_found_as_it_is() {
    let e = devset_core::survey::found_of(bare("f", None), Some(b"x  \n".as_slice()), true, None, None).unwrap();
    assert!(e.conflict, "a waiting conflict is seen");
    assert!(e.found.unwrap().same(&Fingerprint::of(b"x  \n")));
    let gone = devset_core::survey::found_of(bare("f", None), None, false, None, None).unwrap();
    assert!(gone.found.is_none() && !gone.conflict);
}

#[test]
fn a_block_is_found_between_its_markers() {
    let shape = Shape::Block(Markers::new(Comment::Hash, "rust"));
    let file = "target/\n\n# >>> devset: rust >>>\n*.rs.bk\n# <<< devset: rust <<<\n";
    let e = devset_core::survey::found_of(bare(".gitignore", Some(("rust", Scope::Block))), Some(file.as_bytes()), false, Some(&shape), None).unwrap();
    assert!(e.found.unwrap().same(&Fingerprint::of(b"*.rs.bk\n")));
    let none = devset_core::survey::found_of(bare(".gitignore", Some(("rust", Scope::Block))), Some(b"target/\n".as_slice()), false, Some(&shape), None).unwrap();
    assert!(none.found.is_none(), "no block, nothing of the part");
    let broken = "# >>> devset: rust >>>\nx\n";
    let err = devset_core::survey::found_of(bare(".gitignore", Some(("rust", Scope::Block))), Some(broken.as_bytes()), false, Some(&shape), None).unwrap_err();
    assert_eq!(err.file, ".gitignore");
    assert_eq!(err.message, "the block has no closing marker");
    assert_eq!(err.span.map(|s| s.0), Some(0), "at the opening marker");
    let bad = devset_core::survey::found_of(bare(".gitignore", Some(("rust", Scope::Block))), Some(b"\xff".as_slice()), false, Some(&shape), None).unwrap_err();
    assert!(bad.text.is_empty() && bad.span.is_none(), "not UTF-8");
}

#[test]
fn keys_of_the_base_join_the_part() {
    let base = devset_core::part::keys::encode(&[(vec!["a".to_owned()], "1".to_owned()), (vec!["b".to_owned()], "2".to_owned())]);
    let e = devset_core::survey::found_of(bare("Cargo.toml", Some(("rust", Scope::Keys))), Some(b"a = 1\n".as_slice()), false, Some(&Shape::Keys(Syntax::Toml)), Some(base.as_slice())).unwrap();
    assert_eq!(e.keys, vec![vec!["a".to_owned()], vec!["b".to_owned()]]);
}
