use devset_core::digest;
use devset_core::digest::{Digest, Fingerprint, is_binary};

#[test]
fn canonical_form() {
    for (input, want) in [
        (&b""[..], &b""[..]),
        (b" \n\t\n", b""),
        (b"a", b"a\n"),
        (b"a\n\n\n", b"a\n"),
        (b"a  \r\nb\t\r\n", b"a\nb\n"),
        (b"\xEF\xBB\xBFa\n", b"a\n"),
        (b"\n\na\n\n b\n", b"\n\na\n\n b\n"),
        (b"a\rb\n", b"a\rb\n"),
    ] {
        assert_eq!(digest::canonical_form(input), want, "input {:?}", String::from_utf8_lossy(input));
    }
}

#[test]
fn binary_is_exact() {
    let bytes = b"a \0 b  \r\n";
    let fp = Fingerprint::of(bytes);
    assert!(fp.exact.same(&fp.canonical), "binary content must not be canonicalized");
}

#[test]
fn canonical_form_is_idempotent() {
    for text in [&b"a  \r\n\n"[..], b" x\t\n y \n\n", b"\xEF\xBB\xBFq"] {
        let once = digest::canonical_form(text);
        assert_eq!(digest::canonical_form(&once), once);
    }
}

#[test]
fn cosmetic_changes_keep_content_and_real_ones_do_not() {
    let a = Fingerprint::of(b"ab\ncd");
    let b = Fingerprint::of("\u{FEFF}ab \t\r\ncd  \r\n\n\n".as_bytes());
    assert!(a.same_content(&b));
    assert!(!a.same(&b));
    let c = Fingerprint::of(b"aZ\ncd");
    assert!(!a.same_content(&c));
}

#[test]
fn binary_sniffs_a_nul() {
    assert!(is_binary(b"a\0b"));
    assert!(!is_binary(b"plain text\n"));
}

#[test]
fn digests_are_blake3_in_hex() {
    let d = Digest::of(b"");
    assert_eq!(d.to_hex(), "af1349b9f5f9a1a6a0404dea36dcc9499bcb25c9adc112b7cc9a93cae41f3262");
    assert!(d.same(&Digest::of(b"")));
    assert!(!d.same(&Digest::of(b"x")));
}

#[test]
fn a_second_bom_survives_one_pass() {
    let once = digest::canonical_form(b"\xEF\xBB\xBF\xEF\xBB\xBFa");
    assert_eq!(once, b"\xEF\xBB\xBFa\n");
    assert_eq!(digest::canonical_form(&once), b"a\n");
}

#[test]
fn digests_read_back_from_hex() {
    let d = Digest::of(b"x");
    let hex = d.to_hex();
    assert_eq!(Digest::parse(&hex), Some(d.clone()));
    assert_eq!(Digest::parse(&hex.to_uppercase()), Some(d));
    assert_eq!(Digest::parse("abc"), None);
    assert_eq!(Digest::parse(&"g".repeat(64)), None);
}
