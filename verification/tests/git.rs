use devset_core::blobs::wanted_blobs;
use devset_core::git::{Blob, blob_size, parse_listing, pick_ref};
use devset_core::path::RelPath;
use devset_core::source::{GitRef, Oid, SourceError};

#[test]
fn headers_give_blob_sizes() {
    assert_eq!(blob_size("0123abcd blob 42\n"), Some(42));
    assert_eq!(blob_size("0123abcd tree 42\n"), None);
    assert_eq!(blob_size("0123abcd blob x\n"), None);
    assert_eq!(blob_size("0123abcd blob 18446744073709551615"), Some(u64::MAX));
    assert_eq!(blob_size("0123abcd blob 18446744073709551616"), None);
    assert_eq!(blob_size("missing"), None);
}

#[test]
fn listings_are_read_entry_by_entry() {
    let raw = b"100644 blob aaa\tprofile.toml\0120000 blob bbb\tlink\0160000 commit ccc\tsub\0garbage\0";
    let listed = parse_listing(raw);
    let seen: Vec<(&str, &str, bool)> = listed.iter().map(|(p, b)| (p.as_str(), b.id.as_str(), b.regular)).collect();
    assert_eq!(seen, vec![("profile.toml", "aaa", true), ("link", "bbb", false), ("sub", "ccc", false)]);
}

#[test]
fn refs_resolve_from_what_the_remote_lists() {
    let (a, b) = ("a".repeat(40), "b".repeat(40));
    let listing = format!("{a}\trefs/tags/v1\n{b}\trefs/tags/v1^{{}}\n");
    let tag = GitRef::Tag("v1".into());
    assert_eq!(pick_ref(&listing, &tag, "u").unwrap().as_str(), b, "a tag is the commit it points at");
    let listing = format!("{a}\trefs/heads/main\n");
    assert_eq!(pick_ref(&listing, &GitRef::Branch("main".into()), "u").unwrap().as_str(), a);
    let missing = pick_ref(&listing, &GitRef::Head, "https://h/r");
    assert_eq!(missing, Err(SourceError::NoRef { url: "https://h/r".into(), reference: "a default branch".into() }));
    let pinned = Oid::new(&"C".repeat(40)).unwrap();
    assert_eq!(pick_ref("", &GitRef::Rev(pinned.clone()), "u"), Ok(pinned));
    assert!(matches!(pick_ref("xyz\tHEAD\n", &GitRef::Head, "u"), Err(SourceError::Rev { .. })));
}

#[test]
fn a_profile_reads_the_blobs_under_its_directory() {
    let blob = |id: &str, regular: bool| Blob { id: id.to_owned(), regular };
    let files = vec![
        ("repo/p/a.txt".to_owned(), blob("1", true)),
        ("repo/p/link".to_owned(), blob("2", false)),
        ("repo/p/b.txt".to_owned(), blob("3", true)),
    ];
    let dir = RelPath::new("repo").unwrap();
    let rev = Oid::new(&"ab".repeat(20)).unwrap();
    let path = |p: &str| RelPath::new(p).unwrap();
    let got = wanted_blobs(Some(&dir), "p", &files, &[path("b.txt"), path("gone"), path("a.txt")], &rev).unwrap();
    let got: Vec<(&str, &str)> = got.iter().map(|(p, id)| (p.as_str(), id.as_str())).collect();
    assert_eq!(got, [("b.txt", "3"), ("a.txt", "1")]);
    let refused = wanted_blobs(Some(&dir), "p", &files, &[path("link")], &rev);
    assert_eq!(refused, Err(SourceError::NotAFile { file: "repo/p/link @abababa".to_owned() }));
}

#[test]
fn git_refusals_are_told_apart() {
    let lines = vec!["fatal: could not read Username for 'https://example.com': terminal prompts disabled".to_owned()];
    assert!(devset_core::git::needs_credentials(&lines));
    assert!(!devset_core::git::needs_credentials(&vec!["fatal: repository not found".to_owned()]));
    assert!(devset_core::git::lacks_commit("error: Server does not allow request for unadvertised object 0123"));
    assert!(!devset_core::git::lacks_commit("fatal: unable to access"));
}

#[test]
fn a_pin_or_a_named_commit_needs_no_remote() {
    use_known_rev();
}

fn use_known_rev() {
    let a = devset_core::source::Oid::new("0123456789abcdef0123456789abcdef01234567").unwrap();
    let b = devset_core::source::Oid::new("89abcdef0123456789abcdef0123456789abcdef").unwrap();
    let head = devset_core::source::GitRef::Head;
    assert_eq!(devset_core::git::known_rev(Some(&a), &head, Some(b.clone())).map(|o| o.as_str().to_owned()), Some(a.as_str().to_owned()));
    assert_eq!(devset_core::git::known_rev(None, &devset_core::source::GitRef::Rev(b.clone()), None).map(|o| o.as_str().to_owned()), Some(b.as_str().to_owned()));
    assert!(devset_core::git::known_rev(None, &head, None).is_none(), "a ref resolves now");
    assert_eq!(devset_core::git::known_rev(None, &head, Some(b.clone())).map(|o| o.as_str().to_owned()), Some(b.as_str().to_owned()));
}
