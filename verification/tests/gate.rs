use devset_core::gate::{Disk, EntryGate, Fact, Gated, Pattern, Reason, Sentinels, check, decide, settle, settle_exists};
use devset_core::name::{FeatureName, ProfileName, ScaffoldId};
use devset_core::path::RelPath;
use devset_core::profile::{Policy, When};
use devset_core::survey::{Entry, Want};
use devset_core::digest::Fingerprint;
use devset_core::format::Format;
use devset_core::target::{Scaffold, Scaffolded};
use devset_core::vars::VarName;

fn path(p: &str) -> RelPath {
    RelPath::new(p).unwrap()
}

#[test]
fn patterns() {
    assert!(matches!(Pattern::parse("docs/book.toml"), Ok(Pattern::Path(_))), "a path");
    assert!(matches!(Pattern::parse("**/*.proto"), Ok(Pattern::Glob(_))), "a glob");
    let glob = Pattern::parse("src/*.rs").expect("a glob");
    assert!(glob.names(&path("src/lib.rs")) && !glob.names(&path("src/a/lib.rs")), "`*` stays in a component");
    for bad in ["", "../x", "/abs", "a/[b"] {
        assert!(Pattern::parse(bad).is_err(), "{bad:?} is neither");
    }
}

#[test]
fn gates_name_what_is_off() {
    let when = When {
        features: vec![FeatureName::new("api").unwrap()],
        profiles: vec![],
        vars: vec![(VarName::new("book_dir").unwrap(), vec!["docs".to_owned()])],
        exists: vec![],
    };
    let on = vec![FeatureName::new("api").unwrap()];
    let answers = vec![(VarName::new("book_dir").unwrap(), "book".to_owned())];
    let why = check(&when, &on, &[], &answers).expect("off");
    assert_eq!(why.to_string(), "book_dir is \"book\"");
    assert!(check(&when, &[], &[], &answers).is_some_and(|r| matches!(r, Reason::Feature(_))));
    let answers = vec![(VarName::new("book_dir").unwrap(), "docs".to_owned())];
    assert!(check(&when, &on, &[], &answers).is_none(), "every condition holds");
}

fn fact(p: &str, on: bool, off: bool) -> Fact {
    Fact { path: path(p), kept_on: on, kept_off: off }
}

#[test]
fn exists_settles_as_the_least_fixpoint() {
    // a needs b, b needs a: neither is evidence for the other, so both stay off.
    let facts = vec![fact("a", true, false), fact("b", true, false), fact("c", true, true)];
    let disk = Disk { there: vec![], files: vec![] };
    let gated = vec![
        Gated { at: 0, patterns: vec![Pattern::parse("b").unwrap()] },
        Gated { at: 1, patterns: vec![Pattern::parse("a").unwrap()] },
    ];
    let on = settle_exists(&facts, &disk, &gated, &vec![true, true, true], 1);
    assert_eq!(on, vec![false, false, true]);
    // c is kept whatever; a needs c, b needs a: both turn on, in two rounds.
    let gated = vec![
        Gated { at: 0, patterns: vec![Pattern::parse("c").unwrap()] },
        Gated { at: 1, patterns: vec![Pattern::parse("a").unwrap()] },
    ];
    let on = settle_exists(&facts, &disk, &gated, &vec![true, true, true], 1);
    assert_eq!(on, vec![true, true, true]);
    // a file on disk no entry manages counts, and a glob sees it.
    let disk = Disk { there: vec![path("d")], files: vec![path("x.proto")] };
    let gated = vec![
        Gated { at: 0, patterns: vec![Pattern::parse("d").unwrap()] },
        Gated { at: 1, patterns: vec![Pattern::parse("**/*.proto").unwrap()] },
    ];
    let on = settle_exists(&facts, &disk, &gated, &vec![true, true, true], 1);
    assert_eq!(on, vec![true, true, true]);
}

fn id(p: &str, g: &str) -> ScaffoldId {
    ScaffoldId::parse(&format!("{p}/{g}")).unwrap()
}

#[test]
fn scaffolds_are_decided_once() {
    let disk = Disk { there: vec![path("book.toml")], files: vec![] };
    let groups = vec![
        Sentinels { id: id("mdbook", "book"), unless: vec![Pattern::parse("book.toml").unwrap()], applies: true },
        Sentinels { id: id("mdbook", "ci"), unless: vec![Pattern::parse("ci.yml").unwrap()], applies: true },
        Sentinels { id: id("mdbook", "idle"), unless: vec![], applies: false },
    ];
    let decided = decide(&groups, &vec![], &vec![], &disk).unwrap();
    let decisions: Vec<(String, Scaffolded)> = decided.iter().map(|(id, s)| (id.to_string(), s.decision)).collect();
    assert_eq!(decisions, vec![("mdbook/book".to_owned(), Scaffolded::Found), ("mdbook/ci".to_owned(), Scaffolded::Written)]);
    let again = decide(&groups, &vec![], &vec![id("mdbook", "book")], &disk).unwrap();
    assert_eq!(again[0].1.decision, Scaffolded::Written, "written again when asked");
    let unknown = decide(&groups, &vec![], &vec![id("other", "x")], &disk);
    assert!(unknown.is_err());
}

fn entry(p: &str, record: bool) -> Entry {
    let fp = Fingerprint::of(b"x\n");
    Entry {
        path: path(p),
        part: None,
        want: Some(Want { layer: 0, policy: Policy::Once, validate: Format::Unchecked, executable: false, fingerprint: fp.clone() }),
        record: if record { Some(fp.clone()) } else { None },
        recorded: if record { Some(Policy::Once) } else { None },
        found: None,
        conflict: false,
        present: false,
        gate: None,
        keys: Vec::new(),
    }
}

#[test]
fn a_found_scaffold_turns_its_files_off() {
    let mut entries = vec![entry("SUMMARY.md", true), entry("other.md", false)];
    let gates = vec![
        EntryGate { provided: true, scaffold: Some((id("mdbook", "book"), path("SUMMARY.md"))), exists: vec![] },
        EntryGate { provided: true, scaffold: None, exists: vec![Pattern::parse("nowhere").unwrap()] },
    ];
    let mut scaffolds = vec![(id("mdbook", "book"), Scaffold { decision: Scaffolded::Found, files: vec![] })];
    let disk = Disk { there: vec![], files: vec![] };
    let settled = settle(&mut entries, &gates, &mut scaffolds, &vec![], &disk);
    assert_eq!(settled.on, vec![false, false]);
    assert_eq!(settled.gated.len(), 2, "both are off");
    assert_eq!(entries.len(), 1, "the recorded one stays to be released");
    assert!(entries[0].want.is_none() && entries[0].gate.is_some());
    assert_eq!(settled.exists.len(), 1);
    assert_eq!(settled.exists[0].1, vec![("nowhere".to_owned(), false)]);
    assert!(matches!(&settled.off[1], Some(Reason::Absent(p)) if p == "nowhere"));
}
