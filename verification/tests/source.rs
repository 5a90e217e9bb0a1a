use devset_core::lexical::{lexical, relative};
use devset_core::source::{GitRef, Oid, Source, SourceError, SourceSpec, locate, remote, wanted};

fn spec(git: Option<&str>, tag: Option<&str>, branch: Option<&str>, rev: Option<&str>, path: Option<&str>) -> SourceSpec {
    let s = |v: Option<&str>| v.map(str::to_owned);
    SourceSpec { git: s(git), tag: s(tag), branch: s(branch), rev: s(rev), path: s(path) }
}

#[test]
fn valid() {
    assert_eq!(Source::from_spec(spec(None, None, None, None, Some("../p"))), Ok(Source::Dir("../p".into())), "local directory");
    for (written, dir) in [("./../p/", "../p"), ("./p", "p"), (".", "."), ("./", ".")] {
        assert_eq!(Source::from_spec(spec(None, None, None, None, Some(written))), Ok(Source::Dir(dir.into())), "{written:?} has one spelling");
    }
    let Ok(Source::Git { url, at, path }) = Source::from_spec(spec(Some("https://h/r"), Some("v1"), None, None, Some("rust"))) else {
        panic!("git source should parse");
    };
    assert_eq!((url.as_str(), at, path.map(|p| p.as_str().to_owned())), ("https://h/r", GitRef::Tag("v1".into()), Some("rust".into())), "fields");
    let rev = "A".repeat(40);
    let Ok(Source::Git { at: GitRef::Rev(oid), .. }) = Source::from_spec(spec(Some("u"), None, None, Some(&rev), None)) else {
        panic!("rev should parse");
    };
    assert_eq!(oid.as_str(), "a".repeat(40), "commit ids are lowercased");
}

#[test]
fn invalid() {
    for s in [
        spec(None, None, None, None, None),
        spec(None, None, None, None, Some("")),
        spec(None, Some("v1"), None, None, None),
        spec(None, None, Some("b"), None, Some("p")),
        spec(Some("u"), Some("v1"), Some("b"), None, None),
        spec(Some("u"), None, None, Some("abc"), None),
        spec(Some("--upload-pack=x"), None, None, None, None),
        spec(Some("u"), None, None, None, Some("../x")),
    ] {
        assert!(Source::from_spec(s).is_err(), "should be rejected");
    }
}

#[test]
fn round_trips() {
    let written = spec(Some("https://h/r"), None, Some("main"), None, Some("a/b"));
    let source = Source::from_spec(written).unwrap();
    let back = source.to_spec();
    assert_eq!((back.git.as_deref(), back.branch.as_deref(), back.path.as_deref()), (Some("https://h/r"), Some("main"), Some("a/b")));
    assert_eq!((back.tag, back.rev), (None, None));
}

#[test]
fn source_errors_say_why() {
    assert_eq!(Source::from_spec(spec(None, None, None, None, None)).unwrap_err().to_string(), "invalid source: needs `git` or `path`");
    let e = Source::from_spec(spec(Some("-x"), None, None, None, None)).unwrap_err();
    assert_eq!(e.to_string(), "invalid source: `git` must be a repository URL, not \"-x\"");
    let git = SourceError::Git { command: "fetch".to_owned(), stderr: "fatal: nope\r\nmore\n".to_owned() };
    assert_eq!(git.to_string(), "git fetch failed: fatal: nope");
    let quiet = SourceError::Git { command: "fetch".to_owned(), stderr: String::new() };
    assert_eq!(quiet.to_string(), "git fetch failed: with no message");
}

#[test]
fn oids_are_full_and_short() {
    let oid = Oid::new(&"ab".repeat(20)).unwrap();
    assert_eq!(oid.short(), "abababa");
    assert!(Oid::new("abc").is_err());
    assert!(Oid::new(&"g".repeat(40)).is_err());
}

#[test]
fn remotes_and_refs() {
    for (url, is_remote) in [("https://h/p", true), ("git@h:org/p", true), ("file:///p", true), ("../p.git", false), ("./a:b", false), ("/abs/p.git", false)] {
        assert_eq!(remote(url), is_remote, "{url}");
    }
    assert_eq!(wanted(&GitRef::Head), "HEAD");
    assert_eq!(wanted(&GitRef::Branch("main".into())), "refs/heads/main");
    assert_eq!(wanted(&GitRef::Tag("v1".into())), "refs/tags/v1");
}

#[test]
fn twins_are_one_source_at_two_refs() {
    let a = Source::from_spec(spec(Some("u"), Some("v1"), None, None, None)).unwrap();
    let b = Source::from_spec(spec(Some("u"), Some("v2"), None, None, None)).unwrap();
    assert!(a.twin(&b));
    assert!(!a.twin(&a.clone()));
    assert!(a.same(&a.clone()));
}

#[test]
fn local_git_paths_are_anchored() {
    let root = "/work/repo";
    for (url, want) in [
        ("../p.git", "/work/p.git"),
        ("/abs/p.git", "/abs/p.git"),
        ("https://h/p", "https://h/p"),
        ("file:///p", "file:///p"),
        ("git@h:org/p", "git@h:org/p"),
        ("./a:b", "/work/repo/a:b"),
    ] {
        assert_eq!(locate(url, root), want, "{url}");
    }
}

#[test]
fn sources_are_rebased_by_name() {
    let (cwd, root) = ("/w", "/w/hello");
    let dir = Source::Dir("p".into()).rebased(cwd, root);
    assert_eq!(dir, Source::Dir("../p".into()), "a directory, from the target");
    let git = |url: &str| Source::Git { url: url.to_owned(), at: GitRef::Head, path: None };
    assert_eq!(git("p.git").rebased(cwd, root), git("../p.git"), "a local repository");
    for kept in ["https://h/p", "git@h:org/p", "/abs/p.git"] {
        assert_eq!(git(kept).rebased(cwd, root), git(kept), "{kept} is left as it is");
    }
    assert_eq!(relative("/w/hello", root), ".", "itself");
    let absolute = Source::Dir("/abs/p".into()).rebased(cwd, root);
    assert_eq!(absolute, Source::Dir("/abs/p".into()), "an absolute directory stays so");
}

#[test]
fn paths_resolve_by_name() {
    assert_eq!(lexical("/a/./b/../c"), "/a/c");
    assert_eq!(lexical("../x/.."), "..");
    assert_eq!(lexical("/.."), "/..");
    assert_eq!(lexical(""), "");
    assert_eq!(relative("/a/p", "/a/repo"), "../p");
    assert_eq!(relative("/a/b/c", "/a"), "b/c");
    assert_eq!(relative("/x", "y"), "/x");
    assert_eq!(relative("q", "/y/z"), "../../../q");
}
