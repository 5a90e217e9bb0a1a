use devset_core::merge::{Driver, DriverFault, MergeError, expand, has_markers, merge_builtin, not_started, outcome, trim};

#[test]
fn parses_driver_lines() {
    let Ok(Driver::Command { args, .. }) = Driver::parse("mergiraf merge --git %O %A %B -p '%P'")
    else {
        panic!("valid driver");
    };
    assert_eq!(
        args,
        ["mergiraf", "merge", "--git", "%O", "%A", "%B", "-p", "%P"],
        "split without a shell"
    );
    for bad in ["", "tool 'open", "tool %O %B", "tool %A %Q"] {
        assert!(Driver::parse(bad).is_err(), "{bad:?} should be rejected");
    }
}

#[test]
fn driver_errors_say_why() {
    let reason = |line: &str| match Driver::parse(line) {
        Err(MergeError::Driver { reason, .. }) => reason,
        other => panic!("{other:?}"),
    };
    assert_eq!(reason(""), DriverFault::Empty);
    assert_eq!(reason("tool 'open"), DriverFault::Quotes);
    assert_eq!(reason("tool %O %B"), DriverFault::NoResult);
    assert_eq!(reason("tool %A %Q"), DriverFault::Placeholder);
    assert_eq!(Driver::parse("cp %B %A").unwrap().to_string(), "cp %B %A");
}

#[test]
fn expands_placeholders() {
    assert_eq!(expand("--base=%O", ["o", "a", "b", "p"]), "--base=o", "inside an argument");
    assert_eq!(expand("100%%", ["o", "a", "b", "p"]), "100%", "escaped percent");
}

#[test]
fn expands_every_placeholder() {
    assert_eq!(expand("%O:%A:%B:%P", ["o", "a", "b", "p"]), "o:a:b:p");
}

#[test]
fn builtin_merges_and_conflicts() {
    let clean = merge_builtin(b"a\nb\nc\n", b"A\nb\nc\n", b"a\nb\nC\n");
    assert_eq!(
        (clean.bytes.as_slice(), clean.conflict),
        (&b"A\nb\nC\n"[..], None),
        "disjoint edits merge"
    );
    let conflict = merge_builtin(b"a\n", b"x\n", b"y\n");
    assert!(
        conflict.conflict.is_some() && has_markers(&conflict.bytes),
        "overlapping edits conflict"
    );
}

#[test]
fn binary_merges_keep_theirs() {
    let merged = merge_builtin(b"a\0", b"b\0", b"c\0");
    assert_eq!(merged.bytes, b"c\0".to_vec());
    assert!(merged.conflict.is_some());
}

#[test]
fn detects_markers() {
    assert!(has_markers(b"a\n<<<<<<< ours\nb\n"), "opening marker");
    assert!(!has_markers(b"Title\n=======\n"), "a Markdown underline is not a marker");
}

#[test]
fn commands_follow_git_convention() {
    let path = "f.txt";
    let (o, a, b) = ("/s/O/f.txt", "/s/A/f.txt", "/s/B/f.txt");
    let argv = |line: &str| Driver::parse(line).unwrap().argv(o, a, b, path).unwrap().unwrap();
    assert_eq!(argv("cp %B %A"), vec!["cp".to_owned(), b.to_owned(), a.to_owned()]);
    // `cp %B %A` exits 0, leaving theirs at %A: the result is read from %A.
    let theirs = outcome("cp", Some(0), "", b"b\n".to_vec()).unwrap();
    assert_eq!((theirs.bytes.as_slice(), theirs.conflict), (&b"b\n"[..], None), "exit 0: result read from %A");
    assert_eq!(argv("false %A"), vec!["false".to_owned(), a.to_owned()]);
    assert!(outcome("false", Some(1), "", b"a\n".to_vec()).unwrap().conflict.is_some(), "non-zero exit is a conflict");
}

#[test]
fn a_driver_run_ends_three_ways() {
    let quiet = outcome("m", Some(2), " \n", b"x".to_vec()).unwrap();
    assert_eq!(quiet.conflict.as_deref(), Some("`m` exited 2"));
    let negative = outcome("m", Some(-3), "", b"x".to_vec()).unwrap();
    assert_eq!(negative.conflict.as_deref(), Some("`m` exited -3"));
    let told = outcome("m", Some(1), "  two sides differ\n", b"x".to_vec()).unwrap();
    assert_eq!(told.conflict.as_deref(), Some("two sides differ"));
    let killed = outcome("m", None, "", Vec::new()).unwrap_err();
    assert_eq!(killed.to_string(), "merge driver `m`: killed by a signal");
    assert_eq!(not_started("m", true, String::new()).to_string(), "merge driver `m` is not installed");
    assert_eq!(not_started("m", false, "denied".to_owned()).to_string(), "merge driver `m`: denied");
    assert!(Driver::Builtin.argv(o(), o(), o(), o()).is_none());
    assert_eq!(trim("\t a b \n"), "a b");
}

fn o() -> &'static str {
    "x"
}

#[test]
fn an_escaped_percent_names_no_result() {
    let refused = Driver::parse("tool %%A");
    assert!(matches!(refused, Err(MergeError::Driver { reason: DriverFault::NoResult, .. })), "{refused:?}");
    assert!(Driver::parse("tool %%%A").is_ok(), "a literal percent, then the result");
    assert!(Driver::parse("tool x%%y %A").is_ok());
}
