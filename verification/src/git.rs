//! What git prints, read: an object's header, and a tree's listing.

use vstd::prelude::*;

use crate::source::{GitRef, Oid, SourceError, commit_id, wanted, wanted_of};
use crate::text::{cat, chars_of, is_space, split, split_chars, string_of};

verus! {

/// The commit a git source opens at, when no remote need be asked: its pin; else the commit it
/// names; else the commit its ref resolved to before, `remembered`. `None` when the ref must be
/// resolved now.
pub fn known_rev(pin: Option<&Oid>, at: &GitRef, remembered: Option<Oid>) -> (r: Option<Oid>)
    ensures
        r == match pin {
            Some(p) => Some(*p),
            None => match at {
                GitRef::Rev(x) => Some(*x),
                _ => remembered,
            },
        },
{
    match pin {
        Some(p) => Some(p.clone()),
        None => match at {
            GitRef::Rev(x) => Some(x.clone()),
            _ => remembered,
        },
    }
}


/// What git says when it needed credentials and could not get them.
pub open spec fn no_credentials() -> Seq<Seq<char>> {
    seq![
        "terminal prompts disabled"@,
        "could not read Username"@,
        "Authentication failed"@,
        "Permission denied (publickey"@,
        "Host key verification failed"@,
    ]
}

/// What a server says when it has no commit with the id asked for.
pub open spec fn no_commit() -> Seq<Seq<char>> {
    seq!["not our ref"@, "no such remote ref"@, "unadvertised object"@]
}

/// Whether `text` says one of `phrases`.
pub open spec fn says(text: Seq<char>, phrases: Seq<Seq<char>>) -> bool {
    exists|k: int| 0 <= k < phrases.len() && crate::text::holds(text, #[trigger] phrases[k])
}

/// Whether `text` says one of `phrases`.
fn says_any(text: &str, phrases: &[&str]) -> (r: bool)
    ensures
        r == exists|k: int| 0 <= k < phrases@.len() && crate::text::holds(text@, (#[trigger] phrases@[k])@),
{
    let chars = chars_of(text);
    let mut k: usize = 0;
    while k < phrases.len()
        invariant
            k <= phrases@.len(),
            chars@ == text@,
            forall|j: int| 0 <= j < k ==> !crate::text::holds(text@, (#[trigger] phrases@[j])@),
        decreases phrases@.len() - k,
    {
        if crate::text::holds_text(&chars, &chars_of(phrases[k])) {
            return true;
        }
        k += 1;
    }
    false
}

/// Whether the lines git wrote to stderr say it needed credentials and could not get them.
pub fn needs_credentials(stderr: &Vec<String>) -> (r: bool)
    ensures
        r == exists|i: int| 0 <= i < stderr@.len() && says((#[trigger] stderr@[i])@, no_credentials()),
{
    let phrases = ["terminal prompts disabled", "could not read Username", "Authentication failed", "Permission denied (publickey", "Host key verification failed"];
    assert(phrases@.map_values(|p: &str| p@) =~= no_credentials());
    let mut i: usize = 0;
    while i < stderr.len()
        invariant
            i <= stderr@.len(),
            phrases@.map_values(|p: &str| p@) == no_credentials(),
            forall|j: int| 0 <= j < i ==> !says((#[trigger] stderr@[j])@, no_credentials()),
        decreases stderr@.len() - i,
    {
        let found = says_any(stderr[i].as_str(), &phrases);
        proof {
            if found {
                let k = choose|k: int| 0 <= k < phrases@.len() && crate::text::holds(stderr@[i as int]@, (#[trigger] phrases@[k])@);
                assert(no_credentials()[k] == phrases@[k]@);
            } else {
                assert forall|k: int| 0 <= k < no_credentials().len() implies !crate::text::holds(stderr@[i as int]@, #[trigger] no_credentials()[k]) by {
                    assert(no_credentials()[k] == phrases@[k]@);
                }
            }
        }
        if found {
            return true;
        }
        i += 1;
    }
    false
}

/// Whether what git wrote to stderr says the server has no commit with the id asked for.
pub fn lacks_commit(stderr: &str) -> (r: bool)
    ensures
        r == says(stderr@, no_commit()),
{
    let phrases = ["not our ref", "no such remote ref", "unadvertised object"];
    assert(phrases@.map_values(|p: &str| p@) =~= no_commit());
    let found = says_any(stderr, &phrases);
    proof {
        if found {
            let k = choose|k: int| 0 <= k < phrases@.len() && crate::text::holds(stderr@, (#[trigger] phrases@[k])@);
            assert(no_commit()[k] == phrases@[k]@);
        } else {
            assert forall|k: int| 0 <= k < no_commit().len() implies !crate::text::holds(stderr@, #[trigger] no_commit()[k]) by {
                assert(no_commit()[k] == phrases@[k]@);
            }
        }
    }
    found
}


/// `s` without trailing whitespace, as `str::trim_end` trims it.
pub open spec fn trimmed_end(s: Seq<char>) -> Seq<char>
    decreases s.len(),
{
    if s.len() > 0 && is_space(s.last()) {
        trimmed_end(s.drop_last())
    } else {
        s
    }
}

/// `s` without trailing whitespace.
pub(crate) fn trim_end(s: &[char]) -> (out: Vec<char>)
    ensures
        out@ == trimmed_end(s@),
{
    let mut end = s.len();
    assert(s@.take(end as int) == s@);
    while end > 0 && crate::part::block::space(s[end - 1])
        invariant
            end <= s@.len(),
            trimmed_end(s@) == trimmed_end(s@.take(end as int)),
        decreases end,
    {
        assert(s@.take(end as int).drop_last() == s@.take(end - 1));
        end -= 1;
    }
    proof {
        if end > 0 {
            assert(s@.take(end as int).last() == s@[end - 1]);
        }
    }
    crate::text::slice_of(s, 0, end)
}

/// The value of the decimal digits `d`.
pub open spec fn digits_value(d: Seq<char>) -> nat
    decreases d.len(),
{
    if d.len() == 0 {
        0
    } else {
        digits_value(d.drop_last()) * 10 + ((d.last() as u32) - 48) as nat
    }
}

/// Whether `d` is all decimal digits.
pub open spec fn all_digits(d: Seq<char>) -> bool {
    forall|i: int| 0 <= i < d.len() ==> '0' <= #[trigger] d[i] && d[i] <= '9'
}

/// `s` as `u64`'s `from_str` reads it: an optional `+`, then one or more decimal digits, whose
/// value fits.
pub open spec fn u64_of(s: Seq<char>) -> Option<u64> {
    let d = if s.len() > 0 && s[0] == '+' {
        s.skip(1)
    } else {
        s
    };
    if d.len() > 0 && all_digits(d) && digits_value(d) <= u64::MAX {
        Some(digits_value(d) as u64)
    } else {
        None
    }
}

/// `s` as a `u64`.
pub fn parse_u64(s: &[char]) -> (r: Option<u64>)
    ensures
        r == u64_of(s@),
{
    let start: usize = if s.len() > 0 && s[0] == '+' { 1 } else { 0 };
    let ghost d = if s@.len() > 0 && s@[0] == '+' {
        s@.skip(1)
    } else {
        s@
    };
    assert(d == s@.skip(start as int));
    if start == s.len() {
        return None;
    }
    let mut value: u64 = 0;
    let mut i: usize = start;
    while i < s.len()
        invariant
            start <= i <= s@.len(),
            start < s@.len(),
            d == s@.skip(start as int),
            d == if s@.len() > 0 && s@[0] == '+' {
                s@.skip(1)
            } else {
                s@
            },
            all_digits(s@.subrange(start as int, i as int)),
            value == digits_value(s@.subrange(start as int, i as int)),
        decreases s@.len() - i,
    {
        let c = s[i];
        assert(s@.subrange(start as int, i + 1).drop_last() == s@.subrange(start as int, i as int));
        if !('0' <= c && c <= '9') {
            assert(d[i - start] == c);
            return None;
        }
        let digit = (c as u32 - 48) as u64;
        if value > (u64::MAX - digit) / 10 {
            proof {
                let rest = s@.subrange(start as int, i + 1);
                assert(digits_value(rest) == value * 10 + digit) by (nonlinear_arith)
                    requires digits_value(rest) == digits_value(rest.drop_last()) * 10 + digit, digits_value(rest.drop_last()) == value;
                lemma_value_grows(d, (i + 1 - start) as int);
                assert(d.take((i + 1 - start) as int) == rest);
                assert(value * 10 + digit > u64::MAX) by (nonlinear_arith)
                    requires value > (u64::MAX - digit) / 10, digit <= 9;
            }
            return None;
        }
        assert(value * 10 + digit <= u64::MAX) by (nonlinear_arith)
            requires value <= (u64::MAX - digit) / 10, digit <= 9;
        value = value * 10 + digit;
        i += 1;
    }
    assert(s@.subrange(start as int, s@.len() as int) == d);
    Some(value)
}

/// The value of a prefix of `d` never exceeds the value of `d`, all digits.
proof fn lemma_value_grows(d: Seq<char>, k: int)
    requires
        0 <= k <= d.len(),
    ensures
        all_digits(d) ==> digits_value(d.take(k)) <= digits_value(d),
    decreases d.len() - k,
{
    if k < d.len() {
        lemma_value_grows(d, k + 1);
        assert(d.take(k + 1).drop_last() == d.take(k));
        if all_digits(d) {
            assert('0' <= d[k] && d[k] <= '9');
        }
    } else {
        assert(d.take(k) == d);
    }
}

/// The size a `cat-file --batch-check` header gives: `<id> blob <size>`; `None` for anything
/// but a blob, or a size that is no number.
pub open spec fn blob_size_of(header: Seq<char>) -> Option<u64> {
    let fields = split(trimmed_end(header), ' ');
    if fields.len() >= 3 && fields[1] == seq!['b', 'l', 'o', 'b'] {
        u64_of(fields[2])
    } else {
        None
    }
}

/// The size a `cat-file --batch-check` header gives.
pub fn blob_size(header: &str) -> (r: Option<u64>)
    ensures
        r == blob_size_of(header@),
{
    let fields = split_chars(&trim_end(&chars_of(header)), ' ');
    if fields.len() < 3 {
        return None;
    }
    let kind = &fields[1];
    if !(kind.len() == 4 && kind[0] == 'b' && kind[1] == 'l' && kind[2] == 'o' && kind[3] == 'b') {
        assert(kind@ != seq!['b', 'l', 'o', 'b']);
        return None;
    }
    assert(kind@ =~= seq!['b', 'l', 'o', 'b']);
    parse_u64(fields[2].as_slice())
}

/// A file in a listed tree.
#[derive(Debug, PartialEq, Eq)]
pub struct Blob {
    /// Its object id.
    pub id: String,
    /// Whether it is a regular file: a blob of mode `100644` or `100755`, not a symlink or a
    /// submodule.
    pub regular: bool,
}

/// An entry whose metadata is `meta`, `<mode> <kind> <id>`, and whose path is `path`, as values:
/// its path, id, and whether it is a regular file; `None` when `meta` has fewer fields.
pub open spec fn entry_of(meta: Seq<char>, path: Seq<char>) -> Option<(Seq<char>, Seq<char>, bool)> {
    let fields = split(meta, ' ');
    if fields.len() >= 3 {
        Some((path, fields[2], fields[1] == seq!['b', 'l', 'o', 'b'] && (fields[0] == "100644"@ || fields[0]
            == "100755"@)))
    } else {
        None
    }
}

/// One entry of `ls-tree -r -z` output, `<mode> <kind> <id>\t<path>`, as values; `None` when it
/// does not read so.
pub open spec fn listing_entry(entry: Seq<char>) -> Option<(Seq<char>, Seq<char>, bool)> {
    match crate::text::split_once(entry, '\t') {
        None => None,
        Some((meta, path)) => entry_of(meta, path),
    }
}

/// An entry whose metadata is `meta` and whose path is `path`, read.
fn read_entry(meta: &[char], path: &[char]) -> (r: Option<(String, Blob)>)
    ensures
        match r {
            Some((p, blob)) => entry_of(meta@, path@) == Some((p@, blob.id@, blob.regular)),
            None => entry_of(meta@, path@) is None,
        },
{
    let fields = split_chars(meta, ' ');
    if fields.len() < 3 {
        return None;
    }
    let kind = &fields[1];
    let blob = kind.len() == 4 && kind[0] == 'b' && kind[1] == 'l' && kind[2] == 'o' && kind[3] == 'b';
    proof {
        if blob {
            assert(kind@ =~= seq!['b', 'l', 'o', 'b']);
        } else {
            assert(kind@ != seq!['b', 'l', 'o', 'b']);
        }
    }
    let mode = &fields[0];
    let regular = blob && (crate::format::is(mode.as_slice(), "100644") || crate::format::is(mode.as_slice(), "100755"));
    Some((string_of(path), Blob { id: string_of(fields[2].as_slice()), regular }))
}

/// One entry of `ls-tree -r -z` output, read.
pub fn parse_entry(entry: &str) -> (r: Option<(String, Blob)>)
    ensures
        match r {
            Some((path, blob)) => listing_entry(entry@) == Some((path@, blob.id@, blob.regular)),
            None => listing_entry(entry@) is None,
        },
{
    let chars = chars_of(entry);
    let at = match crate::text::find_char(&chars, '\t') {
        Some(at) => at,
        None => return None,
    };
    let n = chars.len();
    assert(at < n);
    let meta = crate::text::slice_of(&chars, 0, at);
    let path = crate::text::slice_of(&chars, at + 1, n);
    assert(crate::text::split_once(entry@, '\t') == Some((meta@, path@)));
    read_entry(&meta, &path)
}

/// `ls-tree -r -z` output, read entry by entry: the NUL-separated entries that are UTF-8 and read
/// as an entry, in order.
#[verifier::rlimit(40)]
#[verifier::spinoff_prover]
pub fn parse_listing(raw: &[u8]) -> (out: Vec<(String, Blob)>)
    ensures
        out@.map_values(|e: (String, Blob)| (e.0@, e.1.id@, e.1.regular)) == split(raw@, 0u8).filter(
            |entry: Seq<u8>| vstd::utf8::valid_utf8(entry) && listing_entry(vstd::utf8::decode_utf8(entry)) is Some,
        ).map_values(|entry: Seq<u8>| listing_entry(vstd::utf8::decode_utf8(entry))->0),
{
    let entries = crate::digest::split_bytes(raw, 0u8);
    let ghost all = split(raw@, 0u8);
    let ghost keep = |entry: Seq<u8>| vstd::utf8::valid_utf8(entry) && listing_entry(vstd::utf8::decode_utf8(entry)) is Some;
    let ghost read = |entry: Seq<u8>| listing_entry(vstd::utf8::decode_utf8(entry))->0;
    let mut out: Vec<(String, Blob)> = Vec::new();
    let mut i: usize = 0;
    while i < entries.len()
        invariant
            i <= entries@.len(),
            entries@.len() == all.len(),
            forall|k: int| 0 <= k < entries@.len() ==> #[trigger] entries@[k]@ == all[k],
            keep == (|entry: Seq<u8>| vstd::utf8::valid_utf8(entry) && listing_entry(vstd::utf8::decode_utf8(entry)) is Some),
            read == (|entry: Seq<u8>| listing_entry(vstd::utf8::decode_utf8(entry))->0),
            out@.map_values(|e: (String, Blob)| (e.0@, e.1.id@, e.1.regular)) == all.take(i as int).filter(keep).map_values(read),
        decreases entries@.len() - i,
    {
        proof {
            assert(all.take(i + 1).drop_last() == all.take(i as int));
            assert(all.take(i + 1).last() == entries@[i as int]@);
            reveal(Seq::filter);
        }
        let ghost before = out@.map_values(|e: (String, Blob)| (e.0@, e.1.id@, e.1.regular));
        if let Ok(text) = crate::format::decode(entries[i].as_slice()) {
            if let Some(e) = parse_entry(text) {
                out.push(e);
                assert(out@.map_values(|e: (String, Blob)| (e.0@, e.1.id@, e.1.regular)) =~= before.push(read(entries@[i as int]@)));
            }
        }
        i += 1;
    }
    assert(all.take(entries@.len() as int) == all);
    out
}

/// A line of `ls-remote` output: the id, and the ref it names.
pub open spec fn listed_pair(line: Seq<char>) -> Option<(Seq<char>, Seq<char>)> {
    crate::text::split_once(line, '\t')
}

/// Whether the `ls-remote` line `line` is for the ref `name`.
pub open spec fn lists_ref(line: Seq<char>, name: Seq<char>) -> bool {
    listed_pair(line) matches Some((_, r)) && r == name
}

/// The id on the `ls-remote` line `line`.
pub open spec fn id_of(line: Seq<char>) -> Seq<char> {
    (listed_pair(line)->0).0
}

/// The id `ls-remote` output gives the ref `name`: that of the first line for `name` peeled,
/// `name^{}`, which is the commit a tag points at; else that of the last line for `name`.
pub open spec fn listed_id(lines: Seq<Seq<char>>, name: Seq<char>) -> Option<Seq<char>> {
    let peeled = name + "^{}"@;
    match crate::text::least(lines.len() as int, |i: int| lists_ref(lines[i], peeled)) {
        Some(i) => Some(id_of(lines[i])),
        None => match crate::text::least(lines.len() as int, |i: int| lists_ref(lines[lines.len() - 1 - i], name)) {
            Some(j) => Some(id_of(lines[lines.len() - 1 - j])),
            None => None,
        },
    }
}

/// How a ref is named in messages: `a default branch`, `branch <name>` or `tag <name>`.
pub open spec fn reference_of(at: GitRef) -> Seq<char> {
    match at {
        GitRef::Head => "a default branch"@,
        GitRef::Branch(b) => "branch "@ + b@,
        GitRef::Tag(t) => "tag "@ + t@,
        GitRef::Rev(o) => o@,
    }
}

/// The id and the ref on a line of `ls-remote` output.
fn split_line(line: &[char]) -> (r: Option<(String, Vec<char>)>)
    ensures
        match r {
            Some((id, listed)) => listed_pair(line@) == Some((id@, listed@)),
            None => listed_pair(line@) is None,
        },
{
    match crate::text::find_char(line, '\t') {
        Some(at) => {
            let n = line.len();
            let id = string_of(&crate::text::slice_of(line, 0, at));
            let listed = crate::text::slice_of(line, at + 1, n);
            assert(id@ =~= line@.take(at as int));
            assert(listed@ =~= line@.skip(at + 1));
            Some((id, listed))
        },
        None => None,
    }
}

/// The commit `at` names, read from what `git ls-remote` printed of the remote `shown`: the id
/// itself for a commit; else the id [`listed_id`] finds for the ref, refused when there is none
/// or it is not a commit id.
#[verifier::rlimit(30)]
pub fn pick_ref(listing: &str, at: &GitRef, shown: &str) -> (r: Result<Oid, SourceError>)
    ensures
        match *at {
            GitRef::Rev(o) => r == Ok::<Oid, SourceError>(o),
            _ => match listed_id(crate::part::keys::text_lines(listing@), wanted_of(*at)) {
                None => match r {
                    Err(SourceError::NoRef { url, reference }) => url@ == shown@ && reference@ == reference_of(*at),
                    _ => false,
                },
                Some(id) => match r {
                    Ok(o) => commit_id(id) && o@ == crate::text::ascii_lower_seq(id),
                    Err(SourceError::Rev { rev }) => !commit_id(id) && rev@ == id,
                    _ => false,
                },
            },
        },
{
    let reference = match at {
        GitRef::Rev(rev) => return Ok(rev.clone()),
        GitRef::Head => "a default branch".to_owned(),
        GitRef::Branch(b) => cat("branch ", b.as_str()),
        GitRef::Tag(t) => cat("tag ", t.as_str()),
    };
    let name = wanted(at);
    let peeled = cat(name.as_str(), "^{}");
    let chars = chars_of(listing);
    let lines = crate::part::keys::lines(&chars);
    let ghost all = crate::part::keys::text_lines(listing@);
    let ghost p = |i: int| lists_ref(all[i], wanted_of(*at) + "^{}"@);
    let ghost n = all.len() as int;
    let ghost q = |i: int| lists_ref(all[all.len() - 1 - i], wanted_of(*at));
    let mut found: Option<String> = None;
    let mut i: usize = 0;
    while i < lines.len()
        invariant
            i <= lines@.len(),
            lines@.len() == all.len(),
            n == all.len(),
            forall|k: int| 0 <= k < lines@.len() ==> #[trigger] lines@[k]@ == all[k],
            p == (|i: int| lists_ref(all[i], wanted_of(*at) + "^{}"@)),
            q == (|i: int| lists_ref(all[all.len() - 1 - i], wanted_of(*at))),
            peeled@ == name@ + "^{}"@,
            name@ == wanted_of(*at),
            !(*at is Rev),
            all == crate::part::keys::text_lines(listing@),
            forall|k: int| 0 <= k < i ==> !#[trigger] p(k),
            match found {
                Some(id) => exists|k: int| 0 <= k < i && lists_ref(all[k], name@) && id_of(all[k]) == id@
                    && forall|m: int| k < m < i ==> !lists_ref(#[trigger] all[m], name@),
                None => forall|k: int| 0 <= k < i ==> !lists_ref(#[trigger] all[k], name@),
            },
        decreases lines@.len() - i,
    {
        let ghost before = found;
        match split_line(lines[i].as_slice()) {
            Some((id, listed)) => {
                if crate::text::same(listed.as_slice(), chars_of(peeled.as_str()).as_slice()) {
                    proof {
                        assert(p(i as int));
                        crate::text::lemma_least(all.len() as int, p, i as int);
                        assert(id_of(all[i as int]) == id@);
                    }
                    return Oid::new(id.as_str());
                }
                if crate::text::same(listed.as_slice(), chars_of(name.as_str()).as_slice()) {
                    proof {
                        assert(lists_ref(all[i as int], name@) && id_of(all[i as int]) == id@);
                    }
                    found = Some(id);
                } else {
                    proof {
                        assert(!lists_ref(all[i as int], name@));
                    }
                }
                assert(!p(i as int));
            },
            None => {
                assert(!lists_ref(all[i as int], name@));
                assert(!p(i as int));
            },
        }
        i += 1;
    }
    proof {
        crate::text::lemma_least_found(all.len() as int, p);
    }
    match found {
        Some(id) => {
            proof {
                let k = choose|k: int| 0 <= k < n && lists_ref(all[k], name@) && id_of(all[k]) == id@
                    && forall|m: int| k < m < n ==> !lists_ref(#[trigger] all[m], name@);
                assert forall|j: int| 0 <= j < n - 1 - k implies !#[trigger] q(j) by {
                    assert(k < n - 1 - j < n);
                }
                crate::text::lemma_least(n, q, n - 1 - k);
            }
            match Oid::new(id.as_str()) {
                Ok(o) => Ok(o),
                Err(e) => Err(e),
            }
        },
        None => {
            proof {
                assert forall|j: int| 0 <= j < n implies !#[trigger] q(j) by {
                    assert(0 <= n - 1 - j < n);
                }
                crate::text::lemma_least_found(n, q);
            }
            Err(SourceError::NoRef { url: shown.to_owned(), reference })
        },
    }
}

} // verus!
