use devset_core::part::block::{Comment, Markers, comment};
use devset_core::path::RelPath;

#[test]
fn blocks_are_found_written_and_moved() {
    let markers = Markers::new(Comment::Hash, "rust");
    let first = markers.splice("mine\n", "/target\n").expect("an empty file takes a block");
    assert_eq!(
        first, "mine\n\n# >>> devset: rust >>>\n/target\n# <<< devset: rust <<<\n",
        "appended after a blank line"
    );
    let moved = "# >>> devset: rust >>>\n/target\n# <<< devset: rust <<<\nmine\n";
    let updated = markers.splice(moved, "/target\n/out\n").expect("a block in place");
    assert_eq!(
        updated, "# >>> devset: rust >>>\n/target\n/out\n# <<< devset: rust <<<\nmine\n",
        "a moved block is updated where it is"
    );
    let open_only = "# >>> devset: rust >>>\n/target\n";
    assert!(markers.find(open_only).is_err(), "a lone marker is an error, never a second block");
    assert_eq!(markers.find("mine\n"), Ok(None), "no block, no error");
}

#[test]
fn comment_syntax_follows_the_file_type() {
    let of = |path: &str| comment(&RelPath::new(path).expect("a valid path"));
    assert_eq!(of(".gitignore"), Some(Comment::Hash), "by name");
    assert_eq!(of("docs/README.md"), Some(Comment::Angle), "by extension");
    assert_eq!(of(".vscode/settings.jsonc"), Some(Comment::Slashes), "JSONC has comments");
    assert_eq!(of("package.json"), None, "strict JSON has none");
    let html = Markers::new(Comment::Angle, "badges");
    let text = html.splice("", "[badge]\n").expect("an empty file takes a block");
    assert!(text.starts_with("<!-- >>> devset: badges >>> -->\n"), "HTML comments close");
}

#[test]
fn a_block_is_removed_with_its_markers() {
    let markers = Markers::new(Comment::Hash, "rust");
    let text = "mine\n# >>> devset: rust >>>\n/target\n# <<< devset: rust <<<\nmore\n";
    assert_eq!(markers.remove(text).unwrap(), "mine\nmore\n");
    assert_eq!(markers.remove("mine\n").unwrap(), "mine\n");
}

#[test]
fn spans_are_byte_ranges_of_the_text() {
    let markers = Markers::new(Comment::Hash, "rust");
    let text = "é ü\n# >>> devset: rust >>>\nnaïve\n# <<< devset: rust <<<\n";
    let (a, b) = markers.find(text).unwrap().unwrap();
    assert_eq!(&text[a..b], "naïve\n");
    let broken = "ß\n# <<< devset: rust <<<\n";
    let Err(((a, b), _)) = markers.find(broken) else { panic!("a close before an open") };
    assert_eq!(&broken[a..b], "# <<< devset: rust <<<\n");
}
