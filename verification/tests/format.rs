use devset_core::format::{Format, line_at};
use devset_core::path::RelPath;

#[test]
fn inferred_from_extension() {
    for (path, want) in [
        ("deny.toml", Format::Toml),
        (".vscode/settings.JSON", Format::Json),
        ("ci.yml", Format::Yaml),
        ("justfile", Format::Unchecked),
    ] {
        assert_eq!(Format::of(&RelPath::new(path).unwrap()), want, "{path}");
    }
}

#[test]
fn real_files_are_valid() {
    for (format, bytes) in [
        (Format::Yaml, &b"a: 1\n---\nb: 2\n"[..]),
        (Format::Yaml, b"---\na: 1\n...\n"),
        (Format::Toml, b"\xEF\xBB\xBFa = 1\n"),
        (Format::Json, b"\xEF\xBB\xBF{\"a\": 1}"),
        (Format::Yaml, b"\xEF\xBB\xBFa: 1\n"),
        (Format::Toml, b""),
        (Format::Yaml, b""),
        (Format::Json, b""),
    ] {
        assert_eq!(format.check(bytes), Ok(()), "{format:?} {:?}", String::from_utf8_lossy(bytes));
    }
    assert!(Format::Yaml.check(b"a: 1\n---\na: 1\na: 2\n").is_err(), "each document is checked");
}

#[test]
fn duplicate_keys_are_invalid() {
    for (format, valid, duplicated) in [
        (Format::Toml, "a = 1\n[t]\nb = 2\n", "a = 1\nb = 2\na = 3\n"),
        (
            Format::Json,
            "{\n  // why\n  \"a\": 1,\n  \"o\": {\"b\": [1, {\"c\": 2}]},\n}",
            r#"{"o": {"b": 1, "b": 2}}"#,
        ),
        (Format::Json, "[1, 2]", r#"[{"a": 1, "a": 2}]"#),
        (Format::Yaml, "a: 1\nt:\n  b: 2\n", "name: app\ntimeout: 30\nport: 80\ntimeout: 60\n"),
    ] {
        assert_eq!(format.check(valid.as_bytes()), Ok(()), "{format:?} valid: {valid:?}");
        assert!(format.check(duplicated.as_bytes()).is_err(), "{format:?} duplicate: {duplicated:?}");
    }
    assert!(Format::Json.check(b"{'single': 1}").is_err(), "only comments and trailing commas are loosened");
    assert_eq!(Format::Unchecked.check(b"\0 anything"), Ok(()), "none checks nothing");
    let located = [
        (Format::Json, &b"{\"a\": 1,\n \"a\": 2}"[..], "duplicate key `a` at line 2"),
        (Format::Toml, b"a = 1\n\na = 2\n", "duplicate key at line 3"),
        (Format::Yaml, b"a: 1\na: 2\n", "duplicate key `a` at line 2"),
    ];
    for (format, bytes, want) in located {
        assert_eq!(format.check(bytes), Err(want.into()), "{format:?} names the line");
    }
}

#[test]
fn keys_in_sibling_objects_may_repeat() {
    assert_eq!(Format::Json.check(br#"{"a": {"k": 1}, "b": {"k": 2}}"#), Ok(()));
    assert_eq!(Format::Json.check(br#"[{"k": 1}, {"k": 2}]"#), Ok(()));
    assert!(Format::Json.check(br#"{"k": {"x": 1}, "k": 2}"#).is_err());
}

#[test]
fn text_that_is_not_utf8_is_refused() {
    assert!(Format::Toml.check(b"a = \"\xff\"\n").is_err());
    assert_eq!(Format::Unchecked.check(b"\xff"), Ok(()));
}

#[test]
fn lines_are_counted_to_the_offset() {
    assert_eq!(line_at(b"a\nb\nc", 0), 1);
    assert_eq!(line_at(b"a\nb\nc", 2), 2);
    assert_eq!(line_at(b"a\nb\nc", 4), 3);
    assert_eq!(line_at(b"a\nb\nc", 99), 3, "past the end counts every line");
    assert_eq!(line_at("é\n".as_bytes(), 1), 2, "inside a character counts every line");
}
