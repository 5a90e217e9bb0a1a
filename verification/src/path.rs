//! Managed paths, checked to stay inside their root on every supported filesystem.

use unicode_normalization::UnicodeNormalization;
use vstd::prelude::*;

use crate::text::{
    cat, debug_str, quoted, ascii_lower_seq, chars_of, contains_char, ends, has, lemma_split_nonempty, same, split,
    split_chars, string_of,
};

verus! {

/// Characters some supported filesystem cannot store.
pub open spec fn unportable(c: char) -> bool {
    c == '\\' || c == ':' || c == '*' || c == '?' || c == '"' || c == '<' || c == '>' || c == '|'
}

/// The control characters, Unicode's `Cc`, as `char::is_control` documents them.
pub open spec fn is_control(c: char) -> bool {
    (c as u32) <= 0x1f || (0x7f <= (c as u32) && (c as u32) <= 0x9f)
}

/// Code points HFS+ ignores in names, so `.g\u{200C}it` is `.git` there. Git's list.
pub open spec fn ignorable(c: char) -> bool {
    let n = c as u32;
    (0x200c <= n && n <= 0x200f) || (0x202a <= n && n <= 0x202e) || (0x206a <= n && n <= 0x206e)
        || n == 0xfeff
}

/// What `unicode_normalization`'s `nfc` gives `s`: its canonical composition.
pub uninterp spec fn nfc(s: Seq<char>) -> Seq<char>;

/// What `char::to_lowercase` gives `c`: one character or more.
pub uninterp spec fn lowercase(c: char) -> Seq<char>;

/// `s` in Unicode canonical composition, NFC.
#[verifier::external_body]
fn compose(s: &str) -> (out: String)
    ensures
        out@ == nfc(s@),
{
    s.nfc().collect()
}

/// The lowercase of `c`.
#[verifier::external_body]
fn lower(c: char) -> (out: Vec<char>)
    ensures
        out@ == lowercase(c),
{
    c.to_lowercase().collect()
}

/// `lowercase(c)` without the characters HFS+ ignores.
pub open spec fn folded_char(c: char) -> Seq<char> {
    lowercase(c).filter(|x: char| !ignorable(x))
}

/// Each character of `s` lowercased, ignorables dropped.
pub open spec fn fold_chars(s: Seq<char>) -> Seq<char>
    decreases s.len(),
{
    if s.len() == 0 {
        Seq::empty()
    } else {
        fold_chars(s.drop_last()) + folded_char(s.last())
    }
}

/// The key two names share when a case- or normalization-insensitive filesystem merges them:
/// NFC, lowercase, HFS+ ignorables removed.
pub open spec fn fold_of(s: Seq<char>) -> Seq<char> {
    fold_chars(nfc(s))
}

/// Why a path is not a [`RelPath`]: the first rule it breaks.
#[derive(Clone, Copy, Debug, PartialEq, Eq, Structural)]
pub enum PathRule {
    /// It is empty.
    Empty,
    /// It starts with `/`.
    Absolute,
    /// A component is empty, `.` or `..`.
    Component,
    /// A component ends in `.` or a space.
    Trailing,
    /// A character some filesystem cannot store.
    Unportable,
    /// A component folds to `.git`, `git~1` or `.devset`.
    Reserved,
}

impl PathRule {
    /// The rule, as messages state it.
    pub open spec fn message_spec(self) -> Seq<char> {
        match self {
            PathRule::Empty => "empty"@,
            PathRule::Absolute => "absolute"@,
            PathRule::Component => "empty, `.` or `..` component"@,
            PathRule::Trailing => "component ends in `.` or a space"@,
            PathRule::Unportable => "unportable character"@,
            PathRule::Reserved => "reserved component"@,
        }
    }

    /// The rule, as messages state it.
    pub fn message(self) -> (r: &'static str)
        ensures
            r@ == self.message_spec(),
    {
        match self {
            PathRule::Empty => "empty",
            PathRule::Absolute => "absolute",
            PathRule::Component => "empty, `.` or `..` component",
            PathRule::Trailing => "component ends in `.` or a space",
            PathRule::Unportable => "unportable character",
            PathRule::Reserved => "reserved component",
        }
    }
}

/// Whether `s` folds to a name no managed path may use: repository internals, their NTFS short
/// name, and devset's own state.
pub open spec fn reserved(folded: Seq<char>) -> bool {
    folded == seq!['.', 'g', 'i', 't'] || folded == seq!['g', 'i', 't', '~', '1'] || folded
        == seq!['.', 'd', 'e', 'v', 's', 'e', 't']
}

/// The rule a component `part` breaks, if any, checked in order.
pub open spec fn component_rule(part: Seq<char>) -> Option<PathRule> {
    if part.len() == 0 || part == seq!['.'] || part == seq!['.', '.'] {
        Some(PathRule::Component)
    } else if part.last() == '.' || part.last() == ' ' {
        Some(PathRule::Trailing)
    } else if exists|i: int| 0 <= i < part.len() && (is_control(part[i]) || unportable(part[i])) {
        Some(PathRule::Unportable)
    } else if reserved(fold_of(part)) {
        Some(PathRule::Reserved)
    } else {
        None
    }
}

/// The rule the first component that breaks one breaks.
pub open spec fn first_rule(parts: Seq<Seq<char>>) -> Option<PathRule>
    decreases parts.len(),
{
    if parts.len() == 0 {
        None
    } else {
        match first_rule(parts.drop_last()) {
            Some(rule) => Some(rule),
            None => component_rule(parts.last()),
        }
    }
}

/// The first rule `path` breaks: empty, absolute, then each `/`-separated component in order.
pub open spec fn path_rule(path: Seq<char>) -> Option<PathRule> {
    if path.len() == 0 {
        Some(PathRule::Empty)
    } else if path[0] == '/' {
        Some(PathRule::Absolute)
    } else {
        first_rule(split(path, '/'))
    }
}

/// A rule broken by a prefix of the components is the first rule of all of them.
proof fn lemma_first_rule_prefix(parts: Seq<Seq<char>>, n: int)
    requires
        0 <= n <= parts.len(),
        first_rule(parts.take(n)) is Some,
    ensures
        first_rule(parts) == first_rule(parts.take(n)),
    decreases parts.len() - n,
{
    if n < parts.len() {
        assert(parts.take(n + 1).drop_last() == parts.take(n));
        lemma_first_rule_prefix(parts, n + 1);
    } else {
        assert(parts.take(n) == parts);
    }
}

/// `part` folded: NFC, lowercase, ignorables removed.
fn fold_str(part: &str) -> (out: Vec<char>)
    ensures
        out@ == fold_of(part@),
{
    let composed = chars_of(compose(part).as_str());
    let mut out: Vec<char> = Vec::new();
    let mut i: usize = 0;
    while i < composed.len()
        invariant
            i <= composed@.len(),
            composed@ == nfc(part@),
            out@ == fold_chars(composed@.take(i as int)),
        decreases composed@.len() - i,
    {
        let lowered = lower(composed[i]);
        let ghost before = out@;
        let mut j: usize = 0;
        while j < lowered.len()
            invariant
                j <= lowered@.len(),
                lowered@ == lowercase(composed@[i as int]),
                out@ == before + lowered@.take(j as int).filter(|x: char| !ignorable(x)),
            decreases lowered@.len() - j,
        {
            let c = lowered[j];
            proof {
                lemma_filter_push(lowered@.take(j as int), c);
                assert(lowered@.take(j as int + 1) == lowered@.take(j as int).push(c));
            }
            if !is_ignorable(c) {
                out.push(c);
            }
            j += 1;
        }
        proof {
            assert(lowered@.take(lowered@.len() as int) == lowered@);
            assert(composed@.take(i as int + 1).drop_last() == composed@.take(i as int));
        }
        i += 1;
    }
    assert(composed@.take(composed@.len() as int) == composed@);
    out
}

/// Filtering a sequence one element longer.
proof fn lemma_filter_push(s: Seq<char>, c: char)
    ensures
        s.push(c).filter(|x: char| !ignorable(x)) == if ignorable(c) {
            s.filter(|x: char| !ignorable(x))
        } else {
            s.filter(|x: char| !ignorable(x)).push(c)
        },
{
    reveal(Seq::filter);
    assert(s.push(c).drop_last() == s);
}

/// Whether `c` is one of the code points HFS+ ignores.
fn is_ignorable(c: char) -> (r: bool)
    ensures
        r == ignorable(c),
{
    let n = c as u32;
    (0x200c <= n && n <= 0x200f) || (0x202a <= n && n <= 0x202e) || (0x206a <= n && n <= 0x206e)
        || n == 0xfeff
}

/// Whether `folded` is a reserved name.
fn is_reserved(folded: &[char]) -> (r: bool)
    ensures
        r == reserved(folded@),
{
    let git = ['.', 'g', 'i', 't'];
    let short = ['g', 'i', 't', '~', '1'];
    let state = ['.', 'd', 'e', 'v', 's', 'e', 't'];
    let r = same(folded, &git) || same(folded, &short) || same(folded, &state);
    assert(git@ == seq!['.', 'g', 'i', 't']);
    assert(short@ == seq!['g', 'i', 't', '~', '1']);
    assert(state@ == seq!['.', 'd', 'e', 'v', 's', 'e', 't']);
    r
}

/// The rule `part`, one component, breaks.
fn check_component(part: &[char]) -> (r: Option<PathRule>)
    ensures
        r == component_rule(part@),
{
    let n = part.len();
    if n == 0 || (n == 1 && part[0] == '.') || (n == 2 && part[0] == '.' && part[1] == '.') {
        assert(n == 1 && part[0] == '.' ==> part@ == seq!['.']);
        assert(n == 2 && part[0] == '.' && part[1] == '.' ==> part@ == seq!['.', '.']);
        return Some(PathRule::Component);
    }
    assert(part@ != seq!['.'] && part@ != seq!['.', '.']) by {
        if part@ == seq!['.'] {
            assert(part@[0] == '.');
        }
        if part@ == seq!['.', '.'] {
            assert(part@[0] == '.' && part@[1] == '.');
        }
    }
    let last = part[n - 1];
    assert(part@.last() == last);
    if last == '.' || last == ' ' {
        return Some(PathRule::Trailing);
    }
    let mut i: usize = 0;
    while i < n
        invariant
            n == part@.len(),
            i <= n,
            n > 0,
            part@ != seq!['.'] && part@ != seq!['.', '.'],
            part@.last() != '.' && part@.last() != ' ',
            forall|j: int| 0 <= j < i ==> !(is_control(part@[j]) || unportable(part@[j])),
        decreases n - i,
    {
        let c = part[i];
        let code = c as u32;
        let control = code <= 0x1f || (0x7f <= code && code <= 0x9f);
        let odd = c == '\\' || c == ':' || c == '*' || c == '?' || c == '"' || c == '<' || c
            == '>' || c == '|';
        if control || odd {
            assert(is_control(part@[i as int]) || unportable(part@[i as int]));
            return Some(PathRule::Unportable);
        }
        i += 1;
    }
    let folded = fold_str(string_of(part).as_str());
    if is_reserved(&folded) {
        return Some(PathRule::Reserved);
    }
    None
}

/// The first rule `path` breaks.
fn check(path: &[char]) -> (r: Option<PathRule>)
    ensures
        r == path_rule(path@),
{
    if path.len() == 0 {
        return Some(PathRule::Empty);
    }
    if path[0] == '/' {
        return Some(PathRule::Absolute);
    }
    assert(path@.len() > 0 && path@[0] != '/');
    let parts = split_chars(path, '/');
    let ghost spec_parts = split(path@, '/');
    let mut i: usize = 0;
    while i < parts.len()
        invariant
            i <= parts@.len(),
            parts@.len() == spec_parts.len(),
            spec_parts == split(path@, '/'),
            forall|k: int| 0 <= k < parts@.len() ==> #[trigger] parts@[k]@ == spec_parts[k],
            first_rule(spec_parts.take(i as int)) is None,
            path@.len() > 0 && path@[0] != '/',
        decreases parts@.len() - i,
    {
        let rule = check_component(&parts[i]);
        proof {
            assert(spec_parts.take(i as int + 1).drop_last() == spec_parts.take(i as int));
            assert(spec_parts.take(i as int + 1).last() == spec_parts[i as int]);
        }
        if let Some(rule) = rule {
            proof {
                assert(first_rule(spec_parts.take(i as int + 1)) == Some(rule));
                lemma_first_rule_prefix(spec_parts, i as int + 1);
                assert(first_rule(spec_parts) == Some(rule));
            }
            return Some(rule);
        }
        i += 1;
    }
    assert(spec_parts.take(spec_parts.len() as int) == spec_parts);
    None
}

/// Why a path is not a managed one.
#[derive(Clone, Debug, PartialEq, Eq)]
pub struct PathError {
    /// The path.
    pub path: String,
    /// The first rule it breaks.
    pub rule: PathRule,
}

impl PathError {
    /// The error as a message: `invalid path "a//b": empty, `.` or `..` component`.
    pub fn message(&self) -> (r: String)
        ensures
            r@ == "invalid path "@ + debug_str(self.path@) + ": "@ + self.rule.message_spec(),
    {
        let head = cat("invalid path ", quoted(self.path.as_str()).as_str());
        let head = cat(head.as_str(), ": ");
        cat(head.as_str(), self.rule.message())
    }
}

/// A path a profile manages, relative to the target root.
///
/// `/`-separated; no empty, `.` or `..` components; no component ending in `.` or a space; only
/// characters every supported filesystem can store; and no component that folds to `.git`,
/// `git~1` or `.devset`. Anything built from a `RelPath` stays inside its root.
#[derive(Debug, PartialEq, Eq, PartialOrd, Ord, Hash)]
pub struct RelPath {
    text: String,
}

impl View for RelPath {
    type V = Seq<char>;

    closed spec fn view(&self) -> Seq<char> {
        self.text@
    }
}

impl Clone for RelPath {
    fn clone(&self) -> (out: Self)
        ensures
            out == *self,
    {
        RelPath { text: self.text.clone() }
    }
}

/// The last component of `path`, its file name.
pub open spec fn file_name_of(path: Seq<char>) -> Seq<char> {
    split(path, '/').last()
}

/// The extension of a file name, as `Path::extension` finds it: after the last `.`, unless that
/// dot begins the name; ASCII-lowercased.
pub open spec fn extension_of(name: Seq<char>) -> Option<Seq<char>> {
    if exists|i: int| 0 < i < name.len() && name[i] == '.' {
        let i = choose|i: int|
            0 < i < name.len() && name[i] == '.' && forall|j: int| i < j < name.len() ==> name[j]
                != '.';
        Some(ascii_lower_seq(name.skip(i + 1)))
    } else {
        None
    }
}

impl RelPath {
    /// `path`, checked against the rules above.
    pub fn new(path: &str) -> (r: Result<RelPath, PathError>)
        ensures
            match r {
                Ok(p) => p@ == path@ && path_rule(path@) is None,
                Err(e) => e.path@ == path@ && path_rule(path@) == Some(e.rule),
            },
    {
        let chars = chars_of(path);
        match check(&chars) {
            None => Ok(RelPath { text: path.to_owned() }),
            Some(rule) => Err(PathError { path: path.to_owned(), rule }),
        }
    }

    /// The path as written.
    pub fn as_str(&self) -> (r: &str)
        ensures
            r@ == self@,
    {
        self.text.as_str()
    }

    /// The key two paths share when a case- or normalization-insensitive filesystem merges them.
    pub fn fold(&self) -> (r: String)
        ensures
            r@ == fold_of(self@),
    {
        string_of(&fold_str(self.text.as_str()))
    }

    /// Whether `self` and `other` are the same path, as written.
    pub fn same(&self, other: &RelPath) -> (r: bool)
        ensures
            r == (self@ == other@),
    {
        self.text == other.text
    }

    /// Its last component.
    pub fn file_name(&self) -> (r: String)
        ensures
            r@ == file_name_of(self@),
    {
        let chars = chars_of(self.text.as_str());
        let parts = split_chars(&chars, '/');
        proof {
            lemma_split_nonempty(chars@, '/');
        }
        string_of(&parts[parts.len() - 1])
    }

    /// The extension of its file name, lowercased: `toml` for `deny.TOML`.
    pub fn extension(&self) -> (r: Option<String>)
        ensures
            match r {
                Some(e) => extension_of(file_name_of(self@)) == Some(e@),
                None => extension_of(file_name_of(self@)) is None,
            },
    {
        let name = chars_of(self.file_name().as_str());
        let n = name.len();
        let mut i = n;
        while i > 0 && name[i - 1] != '.'
            invariant
                i <= n,
                n == name@.len(),
                forall|j: int| i <= j < n ==> name@[j] != '.',
            decreases i,
        {
            i -= 1;
        }
        if i <= 1 {
            assert(!exists|k: int| 0 < k < name@.len() && name@[k] == '.') by {
                if exists|k: int| 0 < k < name@.len() && name@[k] == '.' {
                    let k = choose|k: int| 0 < k < name@.len() && name@[k] == '.';
                    assert(k >= i);
                }
            }
            return None;
        }
        let dot = i - 1;
        assert(name@[dot as int] == '.');
        let mut ext: Vec<char> = Vec::new();
        let mut k = i;
        while k < n
            invariant
                i <= k <= n,
                n == name@.len(),
                ext@ == ascii_lower_seq(name@.skip(i as int).take(k - i)),
            decreases n - k,
        {
            let c = name[k];
            let l = if 'A' <= c && c <= 'Z' {
                char_from(c as u32 + 32)
            } else {
                c
            };
            proof {
                assert(name@.skip(i as int).take(k - i + 1) == name@.skip(i as int).take(k - i).push(c));
            }
            ext.push(l);
            k += 1;
        }
        proof {
            assert(name@.skip(i as int).take(n - i) == name@.skip(i as int));
            let chosen = choose|j: int|
                0 < j < name@.len() && name@[j] == '.' && forall|m: int| j < m < name@.len() ==> name@[m]
                    != '.';
            assert(0 < dot < name@.len() && name@[dot as int] == '.' && forall|m: int| dot < m < name@.len() ==> name@[m] != '.');
            if chosen != dot {
                if chosen < dot {
                    assert(name@[dot as int] != '.');
                } else {
                    assert(name@[chosen] != '.');
                }
            }
        }
        Some(string_of(&ext))
    }
}

/// The character with code `n`, an ASCII letter's.
fn char_from(n: u32) -> (c: char)
    requires
        0x41 <= n <= 0x7a,
    ensures
        c as u32 == n,
{
    let b = n as u8;
    b as char
}

} // verus!
