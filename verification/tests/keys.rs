use devset_core::part::keys::{Leaf, canonical, decode, display, encode, key_before, lookup, merge, overlap, released_keys, sort_leaves};

fn key(parts: &[&str]) -> Vec<String> {
    parts.iter().map(|s| (*s).to_owned()).collect()
}

fn leaves(entries: &[(&[&str], &str)]) -> Vec<Leaf> {
    entries.iter().map(|(k, v)| (key(k), (*v).to_owned())).collect()
}

#[test]
fn leaves_merge_one_by_one() {
    let base = leaves(&[(&["a"], "1"), (&["b"], "1"), (&["c"], "1"), (&["gone"], "1")]);
    let ours = leaves(&[(&["a"], "2"), (&["b"], "1"), (&["c"], "2"), (&["gone"], "1")]);
    let theirs = leaves(&[(&["a"], "1"), (&["b"], "3"), (&["c"], "3"), (&["new"], "1")]);
    let keys = vec![key(&["a"]), key(&["b"]), key(&["c"]), key(&["gone"]), key(&["new"])];
    let merged = merge(&base, &ours, &theirs, &keys);
    let want = leaves(&[(&["a"], "2"), (&["b"], "3"), (&["c"], "2"), (&["new"], "1")]);
    assert_eq!(merged.leaves, want, "ours, theirs, a conflict kept as ours, a drop and an add");
    assert_eq!(merged.conflicts.len(), 1, "only the leaf both changed conflicts");
}

#[test]
fn keys_display_and_overlap() {
    assert_eq!(display(&key(&["workspace", "lints"])), "workspace.lints", "plain");
    assert_eq!(display(&key(&["[rust]", "editor.tabSize"])), r#""[rust]"."editor.tabSize""#, "quoted");
    assert!(overlap(&key(&["a", "b"]), &key(&["a"])), "a key under another overlaps it");
    assert!(!overlap(&key(&["a", "b"]), &key(&["a", "c"])), "siblings do not");
}

#[test]
fn lookup_finds_the_first_leaf() {
    let l = leaves(&[(&["a"], "1"), (&["a", "b"], "2")]);
    assert_eq!(lookup(&l, &key(&["a", "b"])), Some("2".to_owned()));
    assert_eq!(lookup(&l, &key(&["c"])), None);
}

#[test]
fn theirs_equal_to_base_keeps_ours() {
    let base = leaves(&[(&["a"], "1")]);
    let ours = leaves(&[(&["a"], "5")]);
    let merged = merge(&base, &ours, &base, &vec![key(&["a"])]);
    assert_eq!(merged.leaves, ours);
    assert!(merged.conflicts.is_empty());
}

fn json(text: &str) -> String {
    canonical(text).expect("JSON")
}

#[test]
fn content_round_trips_whatever_the_key_order() {
    let a: Vec<Leaf> = vec![(key(&["a", "b"]), json(r#"{ "y": 1, "x": [1, 2] }"#)), (key(&["c"]), json(r#""d""#))];
    let b: Vec<Leaf> = vec![(key(&["c"]), json(r#""d""#)), (key(&["a", "b"]), json(r#"{ "x": [1, 2], "y": 1 }"#))];
    assert_eq!(encode(&a), encode(&b), "equal leaves encode equally");
    assert_eq!(decode(&encode(&a)), Some(a), "and decode to themselves");
}

#[test]
fn content_is_one_sorted_line_per_leaf() {
    let a: Vec<Leaf> = vec![(key(&["z"]), json("1")), (key(&["a", "b\tc"]), json(r#"{"k":"v\n"}"#))];
    let text = String::from_utf8(encode(&a)).unwrap();
    assert_eq!(text, "[\"a\",\"b\\tc\"]\t{\"k\":\"v\\n\"}\n[\"z\"]\t1\n");
    assert_eq!(canonical("{\"b\": 1, \"a\": 2}").as_deref(), Some("{\"a\":2,\"b\":1}"));
    assert_eq!(canonical("nope"), None);
    assert_eq!(decode(b"[\"a\"]\t1\n[\"a\"]\t2\n"), Some(vec![(key(&["a"]), "2".to_owned())]), "the last line wins");
    assert_eq!(decode(b"no tab\n"), None);
    assert_eq!(decode(b"[\"a\"]\tnot json\n"), None);
    assert_eq!(decode(b"\xff"), None);
    assert_eq!(decode(b""), Some(Vec::new()));
    assert!(key_before(&key(&["a"]), &key(&["a", "b"])) && !key_before(&key(&["b"]), &key(&["a", "z"])));
    let sorted = sort_leaves(&[(key(&["b"]), "1".to_owned()), (key(&["a"]), "2".to_owned())]);
    assert_eq!(sorted[0].0, key(&["a"]));
}

#[test]
fn an_unchanged_side_yields_to_the_other() {
    let base = leaves(&[(&["a"], "1"), (&["b"], "1")]);
    let ours = leaves(&[(&["a"], "2"), (&["b"], "1"), (&["c"], "5")]);
    let keys = vec![key(&["a"]), key(&["b"]), key(&["c"])];
    let merged = merge(&base, &ours, &base, &keys);
    assert_eq!(merged.leaves, ours);
    assert!(merged.conflicts.is_empty());
    let merged = merge(&base, &base, &ours, &keys);
    assert_eq!(merged.leaves, ours);
    assert!(merged.conflicts.is_empty());
}

#[test]
fn a_key_another_part_still_provides_stays() {
    let keys = vec![key(&["a", "b"]), key(&["c"]), key(&["d", "e"])];
    let claimed = vec![key(&["a"]), key(&["d", "e", "f"])];
    assert_eq!(released_keys(&keys, &claimed), vec![key(&["c"])]);
}
