//! Content digests and file fingerprints.

use vstd::prelude::*;

use crate::text::{is_ascii_space, lemma_split_nonempty, split};

verus! {

/// Leading bytes git inspects to decide a file is binary.
pub const BINARY_SNIFF: usize = 8000;

/// What BLAKE3 gives `data`: its 32-byte digest.
pub uninterp spec fn blake3(data: Seq<u8>) -> Seq<u8>;

/// BLAKE3 of `data`.
#[verifier::external_body]
fn hash(data: &[u8]) -> (out: Vec<u8>)
    ensures
        out@ == blake3(data@),
        out@.len() == 32,
{
    blake3::hash(data).as_bytes().to_vec()
}

/// A BLAKE3 digest, written as lowercase hex.
#[derive(Debug, PartialEq, Eq, Hash)]
pub struct Digest {
    bytes: Vec<u8>,
}

impl View for Digest {
    type V = Seq<u8>;

    closed spec fn view(&self) -> Seq<u8> {
        self.bytes@
    }
}

impl Clone for Digest {
    fn clone(&self) -> (out: Self)
        ensures
            out@ == self@,
    {
        Digest { bytes: self.bytes.clone() }
    }
}

/// The lowercase hex digit of `n`, below 16.
pub open spec fn hex_digit(n: u8) -> char {
    if n < 10 {
        ((n + 48) as u8) as char
    } else {
        ((n + 87) as u8) as char
    }
}

/// `bytes` as lowercase hex, two digits a byte.
pub open spec fn hex(bytes: Seq<u8>) -> Seq<char>
    decreases bytes.len(),
{
    if bytes.len() == 0 {
        Seq::empty()
    } else {
        hex(bytes.drop_last()) + seq![hex_digit(bytes.last() / 16), hex_digit(bytes.last() % 16)]
    }
}

/// The bytes 64 hex digits spell, `blake3::Hash::from_hex`: two digits a byte, either case;
/// `None` for any other text.
#[verifier::external_body]
fn from_hex(text: &str) -> (r: Option<Vec<u8>>)
    ensures
        match r {
            Some(bytes) => text@.len() == 64 && (forall|i: int| 0 <= i < 64 ==> crate::text::is_hex(#[trigger] text@[i]))
                && bytes@.len() == 32 && hex(bytes@) == crate::text::ascii_lower_seq(text@),
            None => !(text@.len() == 64 && forall|i: int| 0 <= i < 64 ==> crate::text::is_hex(#[trigger] text@[i])),
        },
{
    blake3::Hash::from_hex(text).ok().map(|hash| hash.as_bytes().to_vec())
}

impl Digest {
    /// The digest `text` writes: 64 hex digits, either case; `None` for any other text.
    pub fn parse(text: &str) -> (r: Option<Digest>)
        ensures
            match r {
                Some(d) => d@.len() == 32 && hex(d@) == crate::text::ascii_lower_seq(text@),
                None => !(text@.len() == 64 && forall|i: int| 0 <= i < 64 ==> crate::text::is_hex(#[trigger] text@[i])),
            },
    {
        match from_hex(text) {
            Some(bytes) => Some(Digest { bytes }),
            None => None,
        }
    }

    /// Digest of `bytes`.
    pub fn of(bytes: &[u8]) -> (d: Digest)
        ensures
            d@ == blake3(bytes@),
    {
        Digest { bytes: hash(bytes) }
    }

    /// Raw digest bytes.
    pub fn as_bytes(&self) -> (r: &[u8])
        ensures
            r@ == self@,
    {
        self.bytes.as_slice()
    }

    /// Whether two digests are one.
    pub fn same(&self, other: &Digest) -> (r: bool)
        ensures
            r == (self@ == other@),
    {
        crate::digest::same_bytes(self.bytes.as_slice(), other.bytes.as_slice())
    }

    /// The digest as lowercase hex.
    pub fn to_hex(&self) -> (r: String)
        ensures
            r@ == hex(self@),
    {
        let mut out = String::new();
        let mut i: usize = 0;
        while i < self.bytes.len()
            invariant
                i <= self@.len(),
                out@ == hex(self@.take(i as int)),
            decreases self@.len() - i,
        {
            let b = self.bytes[i];
            crate::text::push_char(&mut out, digit(b / 16));
            crate::text::push_char(&mut out, digit(b % 16));
            i += 1;
            assert(self@.take(i as int).drop_last() == self@.take(i - 1));
        }
        assert(self@.take(self@.len() as int) == self@);
        out
    }
}

/// The lowercase hex digit of `n`.
fn digit(n: u8) -> (c: char)
    requires
        n < 16,
    ensures
        c == hex_digit(n),
{
    if n < 10 {
        (n + 48) as char
    } else {
        (n + 87) as char
    }
}

/// Whether `a` and `b` are the same bytes.
pub fn same_bytes(a: &[u8], b: &[u8]) -> (r: bool)
    ensures
        r == (a@ == b@),
{
    if a.len() != b.len() {
        return false;
    }
    let mut i: usize = 0;
    while i < a.len()
        invariant
            a@.len() == b@.len(),
            i <= a@.len(),
            forall|j: int| 0 <= j < i ==> a@[j] == b@[j],
        decreases a@.len() - i,
    {
        if a[i] != b[i] {
            return false;
        }
        i += 1;
    }
    assert(a@ =~= b@);
    true
}

/// Git's binary heuristic: a NUL among the first 8000 bytes.
pub open spec fn binary(bytes: Seq<u8>) -> bool {
    exists|i: int| 0 <= i < bytes.len() && i < BINARY_SNIFF && bytes[i] == 0
}

/// Git's binary heuristic.
pub fn is_binary(bytes: &[u8]) -> (r: bool)
    ensures
        r == binary(bytes@),
{
    let mut i: usize = 0;
    while i < bytes.len() && i < BINARY_SNIFF
        invariant
            i <= bytes@.len(),
            i <= BINARY_SNIFF,
            forall|j: int| 0 <= j < i ==> bytes@[j] != 0,
        decreases bytes@.len() - i,
    {
        if bytes[i] == 0 {
            return true;
        }
        i += 1;
    }
    false
}

/// The UTF-8 byte order mark.
pub open spec fn bom() -> Seq<u8> {
    seq![0xefu8, 0xbbu8, 0xbfu8]
}

/// `bytes` without a leading byte order mark.
pub open spec fn strip_bom(bytes: Seq<u8>) -> Seq<u8> {
    if bytes.len() >= 3 && bytes.take(3) == bom() {
        bytes.skip(3)
    } else {
        bytes
    }
}

/// `line` without trailing ASCII whitespace.
pub open spec fn trim_end(line: Seq<u8>) -> Seq<u8>
    decreases line.len(),
{
    if line.len() > 0 && is_ascii_space(line.last()) {
        trim_end(line.drop_last())
    } else {
        line
    }
}

/// `lines`, joined by `\n`.
pub open spec fn join_lines(lines: Seq<Seq<u8>>) -> Seq<u8>
    decreases lines.len(),
{
    if lines.len() == 0 {
        Seq::empty()
    } else if lines.len() == 1 {
        lines[0]
    } else {
        join_lines(lines.drop_last()) + seq![0x0au8] + lines.last()
    }
}

/// How many of `lines` come before the run of empty ones that ends them.
pub open spec fn kept(lines: Seq<Seq<u8>>) -> int
    decreases lines.len(),
{
    if lines.len() == 0 {
        0
    } else if lines.last().len() == 0 {
        kept(lines.drop_last())
    } else {
        lines.len() as int
    }
}

/// The lines of text `bytes`, each without trailing whitespace.
pub open spec fn trimmed_lines(bytes: Seq<u8>) -> Seq<Seq<u8>> {
    split(strip_bom(bytes), 0x0au8).map_values(|line: Seq<u8>| trim_end(line))
}

/// The canonical form of text: no BOM, no trailing whitespace on any line, no trailing blank
/// lines, and exactly one `\n` at the end; empty when nothing but whitespace is left.
pub open spec fn canonical(bytes: Seq<u8>) -> Seq<u8> {
    let lines = trimmed_lines(bytes);
    let k = kept(lines);
    if k == 0 {
        Seq::empty()
    } else {
        join_lines(lines.take(k)) + seq![0x0au8]
    }
}

/// `kept` is at most the number of lines, and the last kept line has something in it.
proof fn lemma_kept(lines: Seq<Seq<u8>>)
    ensures
        0 <= kept(lines) <= lines.len(),
        kept(lines) > 0 ==> lines[kept(lines) - 1].len() > 0,
        forall|j: int| kept(lines) <= j < lines.len() ==> lines[j].len() == 0,
    decreases lines.len(),
{
    if lines.len() > 0 && lines.last().len() == 0 {
        lemma_kept(lines.drop_last());
        assert(forall|j: int| 0 <= j < lines.len() - 1 ==> lines.drop_last()[j] == lines[j]);
    }
}

/// Trimming a line leaves a prefix of it with nothing left to trim.
proof fn lemma_trim_end(line: Seq<u8>)
    ensures
        trim_end(line).len() <= line.len(),
        trim_end(line) == line.take(trim_end(line).len() as int),
        trim_end(trim_end(line)) == trim_end(line),
        forall|j: int| trim_end(line).len() <= j < line.len() ==> is_ascii_space(#[trigger] line[j]),
    decreases line.len(),
{
    if line.len() > 0 && is_ascii_space(line.last()) {
        lemma_trim_end(line.drop_last());
        let t = trim_end(line.drop_last());
        assert(line.drop_last().take(t.len() as int) =~= line.take(t.len() as int));
        assert forall|j: int| trim_end(line).len() <= j < line.len() implies is_ascii_space(#[trigger] line[j]) by {
            if j < line.len() - 1 {
                assert(line.drop_last()[j] == line[j]);
            }
        }
    } else {
        assert(line.take(line.len() as int) =~= line);
    }
}

/// Lines joined by `\n` split back into those lines, where none holds a `\n`.
proof fn lemma_join_split(lines: Seq<Seq<u8>>)
    requires
        lines.len() > 0,
        forall|k: int, i: int| 0 <= k < lines.len() && 0 <= i < lines[k].len() ==> #[trigger] lines[k][i] != 0x0au8,
    ensures
        split(join_lines(lines), 0x0au8) == lines,
        join_lines(lines).len() >= lines[0].len(),
        (join_lines(lines) + seq![0x0au8]).take(lines[0].len() as int + 1) == lines[0].push(0x0au8),
    decreases lines.len(),
{
    if lines.len() == 1 {
        crate::text::lemma_split_append(Seq::<u8>::empty(), lines[0], 0x0au8);
        assert(Seq::<u8>::empty() + lines[0] =~= lines[0]);
        assert(split(Seq::<u8>::empty(), 0x0au8) =~= seq![Seq::<u8>::empty()]);
        assert(seq![Seq::<u8>::empty()].update(0, Seq::<u8>::empty() + lines[0]) =~= lines);
        assert((lines[0] + seq![0x0au8]).take(lines[0].len() as int + 1) =~= lines[0].push(0x0au8));
    } else {
        let init = lines.drop_last();
        assert forall|k: int, i: int| 0 <= k < init.len() && 0 <= i < init[k].len() implies #[trigger] init[k][i] != 0x0au8 by {
            assert(init[k] == lines[k]);
        }
        lemma_join_split(init);
        let head = join_lines(init) + seq![0x0au8];
        assert forall|i: int| 0 <= i < lines.last().len() implies #[trigger] lines.last()[i] != 0x0au8 by {
            assert(lines.last()[i] == lines[lines.len() - 1][i]);
        }
        crate::text::lemma_split_append(head, lines.last(), 0x0au8);
        crate::text::lemma_split_push_sep(join_lines(init), 0x0au8);
        assert(join_lines(init).push(0x0au8) =~= head);
        assert(join_lines(lines) =~= head + lines.last());
        let pieces = init.push(Seq::<u8>::empty());
        assert(pieces.update(pieces.len() - 1, pieces.last() + lines.last()) =~= lines);
        assert(init[0] == lines[0]);
        assert(join_lines(lines) + seq![0x0au8] =~= head + (lines.last() + seq![0x0au8]));
        assert((join_lines(lines) + seq![0x0au8]).take(lines[0].len() as int + 1) =~= head.take(lines[0].len() as int + 1));
    }
}

/// The canonical form is its own canonical form, unless what is left once one BOM is dropped
/// begins with another.
pub proof fn canonical_is_idempotent(bytes: Seq<u8>)
    requires
        !(strip_bom(bytes).len() >= 3 && strip_bom(bytes).take(3) == bom()),
    ensures
        canonical(canonical(bytes)) == canonical(bytes),
{
    let s = strip_bom(bytes);
    let lines = trimmed_lines(bytes);
    let k = kept(lines);
    lemma_kept(lines);
    lemma_split_nonempty(s, 0x0au8);
    if k == 0 {
        assert(strip_bom(Seq::<u8>::empty()) =~= Seq::<u8>::empty());
        assert(split(Seq::<u8>::empty(), 0x0au8) =~= seq![Seq::<u8>::empty()]);
        assert(trimmed_lines(Seq::<u8>::empty()) =~= seq![Seq::<u8>::empty()]);
        assert(kept(trimmed_lines(Seq::<u8>::empty())) == 0) by {
            assert(trim_end(Seq::<u8>::empty()) == Seq::<u8>::empty());
            let t = trimmed_lines(Seq::<u8>::empty());
            assert(t =~= seq![Seq::<u8>::empty()]);
            assert(kept(Seq::<Seq<u8>>::empty()) == 0);
            assert(kept(t) == kept(t.drop_last()));
            assert(t.drop_last() =~= Seq::<Seq<u8>>::empty());
        }
    } else {
        let pieces = split(s, 0x0au8);
        let l = lines.take(k);
        crate::text::lemma_split_pieces(s, 0x0au8);
        assert forall|j: int| 0 <= j < l.len() implies trim_end(#[trigger] l[j]) == l[j] && l[j].len() <= pieces[j].len() && l[j] == pieces[j].take(l[j].len() as int) by {
            assert(l[j] == lines[j]);
            assert(lines[j] == trim_end(pieces[j]));
            lemma_trim_end(pieces[j]);
        }
        assert forall|j: int, i: int| 0 <= j < l.len() && 0 <= i < l[j].len() implies #[trigger] l[j][i] != 0x0au8 by {
            assert(l[j] == pieces[j].take(l[j].len() as int));
            assert(l[j][i] == pieces[j][i]);
        }
        lemma_join_split(l);
        let c = join_lines(l) + seq![0x0au8];
        assert(canonical(bytes) == c);
        assert(strip_bom(c) == c) by {
            if c.len() >= 3 && c.take(3) == bom() {
                let n = l[0].len() as int;
                assert(c.take(n + 1) == l[0].push(0x0au8));
                if n >= 3 {
                    lemma_split_first(s);
                    assert(l[0] == pieces[0].take(n));
                    assert(pieces[0] == s.take(pieces[0].len() as int));
                    assert(l[0].take(3) =~= s.take(3));
                    assert(c.take(3) =~= c.take(n + 1).take(3));
                    assert(l[0].push(0x0au8).take(3) =~= l[0].take(3));
                } else {
                    assert(c[n] == c.take(n + 1)[n]);
                    assert(c[n] == 0x0au8);
                    assert(bom()[n] == c.take(3)[n]);
                }
            }
        }
        crate::text::lemma_split_push_sep(join_lines(l), 0x0au8);
        assert(join_lines(l).push(0x0au8) =~= c);
        let again = trimmed_lines(c);
        assert(again =~= l.push(Seq::<u8>::empty()));
        assert(again.drop_last() =~= l);
        assert(l.last() == lines[k - 1]);
        assert(kept(l) == k);
        assert(kept(again) == k);
        assert(again.take(k) =~= l);
    }
}

/// Trailing whitespace added to a line trims away.
proof fn lemma_trim_spaces(line: Seq<u8>, w: Seq<u8>)
    requires
        forall|j: int| 0 <= j < w.len() ==> is_ascii_space(#[trigger] w[j]),
    ensures
        trim_end(line + w) == trim_end(line),
    decreases w.len(),
{
    if w.len() == 0 {
        assert(line + w =~= line);
    } else {
        assert((line + w).drop_last() =~= line + w.drop_last());
        assert((line + w).last() == w.last());
        assert(is_ascii_space(w[w.len() - 1]));
        lemma_trim_spaces(line, w.drop_last());
    }
}

/// Empty lines after some lines leave what is kept of them as it is.
proof fn lemma_kept_blanks(lines: Seq<Seq<u8>>, m: nat)
    ensures
        kept(lines + Seq::new(m, |i: int| Seq::<u8>::empty())) == kept(lines),
    decreases m,
{
    let blanks = Seq::new(m, |i: int| Seq::<u8>::empty());
    if m == 0 {
        assert(lines + blanks =~= lines);
    } else {
        let fewer = Seq::new((m - 1) as nat, |i: int| Seq::<u8>::empty());
        lemma_kept_blanks(lines, (m - 1) as nat);
        assert((lines + blanks).drop_last() =~= lines + fewer);
        assert((lines + blanks).last().len() == 0);
    }
}

/// Cosmetic changes keep the content: a BOM, whitespace at the end of any line (a carriage
/// return among it, as CRLF endings leave), and lines of nothing but whitespace at the end leave
/// the canonical form as it is, for text that does not begin with a BOM of its own.
pub proof fn cosmetic_changes_keep_content(text: Seq<u8>, ends: Seq<Seq<u8>>, blanks: Seq<Seq<u8>>)
    requires
        !(text.len() >= 3 && text.take(3) == bom()),
        ends.len() == split(text, 0x0au8).len(),
        forall|i: int, j: int| 0 <= i < ends.len() && 0 <= j < ends[i].len() ==> is_ascii_space(#[trigger] ends[i][j])
            && ends[i][j] != 0x0au8,
        forall|i: int, j: int| 0 <= i < blanks.len() && 0 <= j < blanks[i].len() ==> is_ascii_space(#[trigger] blanks[i][j])
            && blanks[i][j] != 0x0au8,
    ensures
        canonical(bom() + join_lines(Seq::new(ends.len(), |i: int| split(text, 0x0au8)[i] + ends[i]) + blanks)) == canonical(text),
{
    let pieces = split(text, 0x0au8);
    lemma_split_nonempty(text, 0x0au8);
    crate::text::lemma_split_pieces(text, 0x0au8);
    let noisy_lines = Seq::new(ends.len(), |i: int| pieces[i] + ends[i]) + blanks;
    let noisy = bom() + join_lines(noisy_lines);
    assert(noisy.take(3) =~= bom());
    assert(strip_bom(noisy) =~= join_lines(noisy_lines));
    assert(strip_bom(text) == text);
    assert forall|k: int, i: int| 0 <= k < noisy_lines.len() && 0 <= i < noisy_lines[k].len() implies #[trigger] noisy_lines[k][i] != 0x0au8 by {
        if k < ends.len() {
            let line = pieces[k] + ends[k];
            assert(noisy_lines[k] == line);
            if i < pieces[k].len() {
                assert(line[i] == pieces[k][i]);
            } else {
                assert(line[i] == ends[k][i - pieces[k].len()]);
            }
        } else {
            assert(noisy_lines[k] == blanks[k - ends.len()]);
        }
    }
    lemma_join_split(noisy_lines);
    let trimmed = trimmed_lines(noisy);
    let clean = trimmed_lines(text);
    let m = blanks.len();
    assert(trimmed =~= clean + Seq::new(m, |i: int| Seq::<u8>::empty())) by {
        assert forall|k: int| 0 <= k < trimmed.len() implies #[trigger] trimmed[k] == (clean + Seq::new(m, |i: int| Seq::<u8>::empty()))[k] by {
            if k < ends.len() {
                assert(noisy_lines[k] == pieces[k] + ends[k]);
                assert forall|j: int| 0 <= j < ends[k].len() implies is_ascii_space(#[trigger] ends[k][j]) by {}
                lemma_trim_spaces(pieces[k], ends[k]);
            } else {
                let b = blanks[k - ends.len()];
                assert(noisy_lines[k] == b);
                assert forall|j: int| 0 <= j < b.len() implies is_ascii_space(#[trigger] b[j]) by {
                    assert(b[j] == blanks[k - ends.len()][j]);
                }
                lemma_trim_spaces(Seq::<u8>::empty(), b);
                assert(Seq::<u8>::empty() + b =~= b);
                assert(trim_end(Seq::<u8>::empty()) == Seq::<u8>::empty());
            }
        }
    }
    lemma_kept_blanks(clean, m);
    let k = kept(clean);
    lemma_kept(clean);
    assert(trimmed.take(k) =~= clean.take(k));
}

/// `text` in CRLF line endings with a space and a tab before each: every `\n` written as
/// ` \t\r\n`.
pub open spec fn noisy_endings(text: Seq<u8>) -> Seq<u8>
    decreases text.len(),
{
    if text.len() == 0 {
        Seq::empty()
    } else if text.last() == 0x0au8 {
        noisy_endings(text.drop_last()) + seq![0x20u8, 0x09u8, 0x0du8, 0x0au8]
    } else {
        noisy_endings(text.drop_last()).push(text.last())
    }
}

/// The lines of `text` with ` \t\r` after each but the last.
pub open spec fn noisy_pieces(text: Seq<u8>) -> Seq<Seq<u8>> {
    let p = split(text, 0x0au8);
    Seq::new(p.len(), |i: int| if i < p.len() - 1 {
        p[i] + seq![0x20u8, 0x09u8, 0x0du8]
    } else {
        p[i]
    })
}

/// Joining lines whose last has more at its end joins to the join with that more at its end.
proof fn lemma_join_last(lines: Seq<Seq<u8>>, x: Seq<u8>)
    requires
        lines.len() >= 1,
    ensures
        join_lines(lines.update(lines.len() - 1, lines.last() + x)) == join_lines(lines) + x,
{
    let up = lines.update(lines.len() - 1, lines.last() + x);
    if lines.len() > 1 {
        assert(up.drop_last() =~= lines.drop_last());
        assert(join_lines(up) =~= join_lines(lines) + x);
    }
}

/// Noisy endings are the noisy pieces joined.
proof fn lemma_noisy_endings(text: Seq<u8>)
    ensures
        noisy_endings(text) == join_lines(noisy_pieces(text)),
    decreases text.len(),
{
    let e = seq![0x20u8, 0x09u8, 0x0du8];
    lemma_split_nonempty(text, 0x0au8);
    if text.len() == 0 {
        assert(split(text, 0x0au8) =~= seq![Seq::<u8>::empty()]);
        assert(noisy_pieces(text) =~= seq![Seq::<u8>::empty()]);
    } else {
        let s = text.drop_last();
        lemma_noisy_endings(s);
        lemma_split_nonempty(s, 0x0au8);
        let ps = split(s, 0x0au8);
        let ws = noisy_pieces(s);
        if text.last() == 0x0au8 {
            let wt = noisy_pieces(text);
            assert(wt.drop_last() =~= ws.update(ws.len() - 1, ws.last() + e));
            lemma_join_last(ws, e);
            assert(wt.last() =~= Seq::<u8>::empty());
            assert(join_lines(wt) =~= join_lines(wt.drop_last()) + seq![0x0au8] + wt.last());
            assert(noisy_endings(text) =~= join_lines(wt));
        } else {
            let wt = noisy_pieces(text);
            let pt = split(text, 0x0au8);
            assert(pt == ps.update(ps.len() - 1, ps.last().push(text.last())));
            assert(ps.last().push(text.last()) =~= ps.last() + seq![text.last()]);
            assert(wt.len() == ws.len());
            assert forall|i: int| 0 <= i < wt.len() implies wt[i] == ws.update(ws.len() - 1, ws.last() + seq![text.last()])[i] by {
                if i < wt.len() - 1 {
                    assert(pt[i] == ps[i]);
                }
            }
            assert(wt =~= ws.update(ws.len() - 1, ws.last() + seq![text.last()]));
            lemma_join_last(ws, seq![text.last()]);
            assert(noisy_endings(text) =~= join_lines(wt));
        }
    }
}

/// Cosmetic noise keeps the content: `text` behind a BOM, each line ending in a space, a tab and
/// CRLF, and two spaces, CRLF and two blank lines after the last, fingerprints as `text` does,
/// for text that does not begin with a BOM of its own.
pub proof fn noisy_text_keeps_content(text: Seq<u8>)
    requires
        !(text.len() >= 3 && text.take(3) == bom()),
    ensures
        canonical(bom() + noisy_endings(text) + seq![0x20u8, 0x20u8, 0x0du8, 0x0au8, 0x0au8, 0x0au8]) == canonical(text),
{
    lemma_noisy_endings(text);
    lemma_split_nonempty(text, 0x0au8);
    let p = split(text, 0x0au8);
    let n = p.len();
    let tab = seq![0x20u8, 0x09u8, 0x0du8];
    let last = seq![0x20u8, 0x20u8, 0x0du8];
    let ends = Seq::new(n, |i: int| if i < n - 1 {
        tab
    } else {
        last
    });
    let blanks = seq![Seq::<u8>::empty(), Seq::<u8>::empty(), Seq::<u8>::empty()];
    assert forall|i: int, j: int| 0 <= i < ends.len() && 0 <= j < ends[i].len() implies is_ascii_space(#[trigger] ends[i][j])
        && ends[i][j] != 0x0au8 by {
        if i < n - 1 {
            assert(ends[i] == tab);
        } else {
            assert(ends[i] == last);
        }
    }
    cosmetic_changes_keep_content(text, ends, blanks);
    let lines = Seq::new(ends.len(), |i: int| p[i] + ends[i]);
    let w = noisy_pieces(text);
    assert(lines =~= w.update(w.len() - 1, w.last() + last));
    lemma_join_last(w, last);
    let l1 = lines.push(Seq::<u8>::empty());
    let l2 = l1.push(Seq::<u8>::empty());
    let l3 = l2.push(Seq::<u8>::empty());
    assert(lines + blanks =~= l3);
    assert(l1.drop_last() =~= lines);
    assert(l2.drop_last() =~= l1);
    assert(l3.drop_last() =~= l2);
    assert(join_lines(l1) =~= join_lines(lines) + seq![0x0au8]);
    assert(join_lines(l2) =~= join_lines(l1) + seq![0x0au8]);
    assert(join_lines(l3) =~= join_lines(l2) + seq![0x0au8]);
    assert(join_lines(l3) =~= join_lines(lines) + seq![0x0au8, 0x0au8, 0x0au8]);
    assert(bom() + noisy_endings(text) + seq![0x20u8, 0x20u8, 0x0du8, 0x0au8, 0x0au8, 0x0au8] =~= bom() + join_lines(lines + blanks));
}

/// Whether no byte of `s` up to `i` is a newline.
pub open spec fn no_newline_through(s: Seq<u8>, i: int) -> bool {
    forall|j: int| 0 <= j <= i ==> #[trigger] s[j] != 0x0au8
}

/// The canonical form is its own canonical form whenever it does not itself begin with a BOM.
pub proof fn canonical_is_idempotent_unless_bom(bytes: Seq<u8>)
    requires
        !(canonical(bytes).len() >= 3 && canonical(bytes).take(3) == bom()),
    ensures
        canonical(canonical(bytes)) == canonical(bytes),
{
    let s = strip_bom(bytes);
    if s.len() >= 3 && s.take(3) == bom() {
        assert(s[0] == 0xefu8 && s[1] == 0xbbu8 && s[2] == 0xbfu8) by {
            assert(s[0] == s.take(3)[0] && s[1] == s.take(3)[1] && s[2] == s.take(3)[2]);
        }
        lemma_split_first(s);
        let pieces = split(s, 0x0au8);
        assert(no_newline_through(s, 2));
        assert(pieces[0].len() > 2);
        let first = pieces[0];
        assert(first[0] == s[0] && first[1] == s[1] && first[2] == s[2]);
        lemma_trim_end(first);
        let line = trim_end(first);
        assert(line.len() >= 3) by {
            if line.len() < 3 {
                assert(is_ascii_space(first[line.len() as int]));
            }
        }
        let lines = trimmed_lines(bytes);
        assert(lines[0] == line);
        lemma_kept(lines);
        let k = kept(lines);
        assert(k > 0) by {
            if k == 0 {
                assert(lines[0].len() == 0);
            }
        }
        let l = lines.take(k);
        crate::text::lemma_split_pieces(s, 0x0au8);
        assert forall|j: int, i: int| 0 <= j < l.len() && 0 <= i < l[j].len() implies #[trigger] l[j][i] != 0x0au8 by {
            lemma_trim_end(pieces[j]);
            assert(l[j] == trim_end(pieces[j]));
            assert(l[j][i] == pieces[j][i]);
        }
        lemma_join_split(l);
        let c = join_lines(l) + seq![0x0au8];
        assert(canonical(bytes) == c);
        assert(c.take(l[0].len() as int + 1) == l[0].push(0x0au8));
        assert(c.take(3) =~= s.take(3)) by {
            assert forall|j: int| 0 <= j < 3 implies c.take(3)[j] == s.take(3)[j] by {
                assert(c.take(3)[j] == c.take(l[0].len() as int + 1)[j]);
                assert(l[0][j] == first[j]);
                assert(first[j] == s[j]);
            }
        }
    }
    canonical_is_idempotent(bytes);
}

/// Cosmetic changes keep the content, as fingerprints tell it: text with no NUL byte and no BOM
/// of its own, and the same text behind a BOM, with whitespace at the end of any line and blank
/// lines after it, have one canonical digest.
pub proof fn cosmetic_changes_keep_fingerprints(text: Seq<u8>, ends: Seq<Seq<u8>>, blanks: Seq<Seq<u8>>)
    requires
        !(text.len() >= 3 && text.take(3) == bom()),
        forall|i: int| 0 <= i < text.len() ==> #[trigger] text[i] != 0u8,
        ends.len() == split(text, 0x0au8).len(),
        forall|i: int, j: int| 0 <= i < ends.len() && 0 <= j < ends[i].len() ==> is_ascii_space(#[trigger] ends[i][j])
            && ends[i][j] != 0x0au8,
        forall|i: int, j: int| 0 <= i < blanks.len() && 0 <= j < blanks[i].len() ==> is_ascii_space(#[trigger] blanks[i][j])
            && blanks[i][j] != 0x0au8,
    ensures
        fingerprint(bom() + join_lines(Seq::new(ends.len(), |i: int| split(text, 0x0au8)[i] + ends[i]) + blanks)).1
            == fingerprint(text).1,
{
    let pieces = split(text, 0x0au8);
    let lines = Seq::new(ends.len(), |i: int| pieces[i] + ends[i]) + blanks;
    let noisy = bom() + join_lines(lines);
    cosmetic_changes_keep_content(text, ends, blanks);
    assert(!binary(text));
    assert(!binary(noisy)) by {
        lemma_split_nonempty(text, 0x0au8);
        assert forall|k: int, i: int| 0 <= k < lines.len() && 0 <= i < lines[k].len() implies #[trigger] lines[k][i] != 0u8 by {
            if k < ends.len() {
                let line = pieces[k] + ends[k];
                assert(lines[k] == line);
                if i < pieces[k].len() {
                    lemma_piece_in(text, k, i);
                } else {
                    assert(line[i] == ends[k][i - pieces[k].len()]);
                }
            } else {
                assert(lines[k] == blanks[k - ends.len()]);
            }
        }
        lemma_join_no_nul(lines);
        assert forall|i: int| 0 <= i < noisy.len() implies #[trigger] noisy[i] != 0u8 by {
            if i >= 3 {
                assert(noisy[i] == join_lines(lines)[i - 3]);
            }
        }
    }
}

/// A byte of a piece of a split is a byte of the text.
proof fn lemma_piece_in(text: Seq<u8>, k: int, i: int)
    requires
        0 <= k < split(text, 0x0au8).len(),
        0 <= i < split(text, 0x0au8)[k].len(),
        forall|j: int| 0 <= j < text.len() ==> #[trigger] text[j] != 0u8,
    ensures
        split(text, 0x0au8)[k][i] != 0u8,
    decreases text.len(),
{
    if text.len() > 0 {
        let init = text.drop_last();
        lemma_split_nonempty(init, 0x0au8);
        assert forall|j: int| 0 <= j < init.len() implies #[trigger] init[j] != 0u8 by {
            assert(init[j] == text[j]);
        }
        let p = split(init, 0x0au8);
        if text.last() == 0x0au8 {
            if k < p.len() {
                lemma_piece_in(init, k, i);
            }
        } else if k < p.len() - 1 {
            lemma_piece_in(init, k, i);
        } else if i < p.last().len() {
            lemma_piece_in(init, k, i);
        } else {
            assert(text.last() == text[text.len() - 1]);
        }
    }
}

/// Lines with no NUL byte join with none.
proof fn lemma_join_no_nul(lines: Seq<Seq<u8>>)
    requires
        forall|k: int, i: int| 0 <= k < lines.len() && 0 <= i < lines[k].len() ==> #[trigger] lines[k][i] != 0u8,
    ensures
        forall|i: int| 0 <= i < join_lines(lines).len() ==> #[trigger] join_lines(lines)[i] != 0u8,
    decreases lines.len(),
{
    if lines.len() > 1 {
        let init = lines.drop_last();
        assert forall|k: int, i: int| 0 <= k < init.len() && 0 <= i < init[k].len() implies #[trigger] init[k][i] != 0u8 by {
            assert(init[k] == lines[k]);
        }
        lemma_join_no_nul(init);
        let j = join_lines(init) + seq![0x0au8] + lines.last();
        assert forall|i: int| 0 <= i < j.len() implies #[trigger] j[i] != 0u8 by {
            if i > join_lines(init).len() {
                assert(j[i] == lines.last()[i - join_lines(init).len() - 1]);
                assert(lines[lines.len() - 1][i - join_lines(init).len() - 1] != 0u8);
            } else if i < join_lines(init).len() {
                assert(j[i] == join_lines(init)[i]);
            }
        }
    } else if lines.len() == 1 {
        assert forall|i: int| 0 <= i < lines[0].len() implies #[trigger] lines[0][i] != 0u8 by {}
    }
}

/// The first piece of a split begins the text, and is all of it when it is the only piece.
proof fn lemma_split_first(s: Seq<u8>)
    ensures
        split(s, 0x0au8).len() > 0,
        split(s, 0x0au8)[0].len() <= s.len(),
        split(s, 0x0au8)[0] == s.take(split(s, 0x0au8)[0].len() as int),
        split(s, 0x0au8).len() == 1 ==> split(s, 0x0au8)[0] == s,
        (forall|j: int| 0 <= j < s.len() ==> #[trigger] s[j] != 0x0au8) ==> split(s, 0x0au8).len() == 1,
        forall|i: int| 0 <= i < s.len() && #[trigger] no_newline_through(s, i) ==> split(s, 0x0au8)[0].len() > i,
    decreases s.len(),
{
    lemma_split_nonempty(s, 0x0au8);
    if s.len() > 0 {
        lemma_split_first(s.drop_last());
        lemma_split_nonempty(s.drop_last(), 0x0au8);
        let p = split(s.drop_last(), 0x0au8);
        let init = s.drop_last();
        if forall|j: int| 0 <= j < s.len() ==> #[trigger] s[j] != 0x0au8 {
            assert forall|j: int| 0 <= j < init.len() implies #[trigger] init[j] != 0x0au8 by {
                assert(init[j] == s[j]);
            }
        }
        assert forall|i: int| 0 <= i < s.len() && #[trigger] no_newline_through(s, i) implies split(s, 0x0au8)[0].len() > i by {
            if i < init.len() {
                assert(no_newline_through(init, i));
                assert forall|j: int| 0 <= j <= i implies #[trigger] init[j] != 0x0au8 by {
                    assert(init[j] == s[j]);
                }
            } else {
                assert forall|j: int| 0 <= j < init.len() implies #[trigger] init[j] != 0x0au8 by {
                    assert(init[j] == s[j]);
                }
                assert(s[i] != 0x0au8);
            }
        }
        if s.last() != 0x0au8 && p.len() == 1 {
            assert(p[0] == s.drop_last());
            assert(p[0].push(s.last()) =~= s);
            assert(s.take(s.len() as int) =~= s);
        } else {
            assert(s.drop_last().take(p[0].len() as int) =~= s.take(p[0].len() as int));
        }
    } else {
        assert(s.take(0) =~= Seq::<u8>::empty());
        assert(split(s, 0x0au8)[0] =~= s);
    }
}

/// `bytes` split at every `sep`.
pub fn split_bytes(s: &[u8], sep: u8) -> (out: Vec<Vec<u8>>)
    ensures
        out@.len() == split(s@, sep).len(),
        forall|i: int| 0 <= i < out@.len() ==> #[trigger] out@[i]@ == split(s@, sep)[i],
{
    let mut out: Vec<Vec<u8>> = Vec::new();
    let mut cur: Vec<u8> = Vec::new();
    let mut i: usize = 0;
    while i < s.len()
        invariant
            i <= s@.len(),
            out@.len() + 1 == split(s@.take(i as int), sep).len(),
            forall|k: int| 0 <= k < out@.len() ==> #[trigger] out@[k]@ == split(s@.take(i as int), sep)[k],
            cur@ == split(s@.take(i as int), sep).last(),
        decreases s@.len() - i,
    {
        let ghost before = s@.take(i as int);
        proof {
            lemma_split_nonempty(before, sep);
        }
        let c = s[i];
        i += 1;
        assert(s@.take(i as int).drop_last() == before);
        if c == sep {
            out.push(cur);
            cur = Vec::new();
        } else {
            cur.push(c);
        }
    }
    assert(s@.take(s@.len() as int) == s@);
    out.push(cur);
    out
}

/// `line` without trailing ASCII whitespace.
fn trim_line(line: &[u8]) -> (out: Vec<u8>)
    ensures
        out@ == trim_end(line@),
{
    let mut n = line.len();
    assert(line@.take(n as int) == line@);
    while n > 0 && (line[n - 1] == 0x20 || line[n - 1] == 0x09 || line[n - 1] == 0x0a || line[n
        - 1] == 0x0c || line[n - 1] == 0x0d)
        invariant
            n <= line@.len(),
            trim_end(line@.take(n as int)) == trim_end(line@),
        decreases n,
    {
        assert(line@.take(n as int).drop_last() == line@.take(n - 1));
        n -= 1;
    }
    let mut out: Vec<u8> = Vec::new();
    let mut i: usize = 0;
    while i < n
        invariant
            i <= n <= line@.len(),
            out@ == line@.take(i as int),
        decreases n - i,
    {
        out.push(line[i]);
        i += 1;
        assert(line@.take(i as int) == line@.take(i - 1).push(line@[i - 1]));
    }
    out
}

/// The canonical form of text `bytes`.
pub fn canonical_form(bytes: &[u8]) -> (out: Vec<u8>)
    ensures
        out@ == canonical(bytes@),
{
    let skip = if bytes.len() >= 3 && bytes[0] == 0xef && bytes[1] == 0xbb && bytes[2] == 0xbf {
        3
    } else {
        0
    };
    proof {
        if skip == 3 {
            assert(bytes@.take(3) =~= bom());
        } else if bytes@.len() >= 3 {
            assert(bytes@.take(3) != bom()) by {
                if bytes@.take(3) == bom() {
                    assert(bytes@.take(3)[0] == 0xef && bytes@.take(3)[1] == 0xbb && bytes@.take(3)[2] == 0xbf);
                }
            }
        }
    }
    let mut body: Vec<u8> = Vec::new();
    let mut i = skip;
    while i < bytes.len()
        invariant
            skip <= i <= bytes@.len(),
            body@ == bytes@.subrange(skip as int, i as int),
        decreases bytes@.len() - i,
    {
        body.push(bytes[i]);
        i += 1;
        assert(bytes@.subrange(skip as int, i as int) == bytes@.subrange(skip as int, i - 1).push(bytes@[i - 1]));
    }
    assert(body@ == strip_bom(bytes@));
    let raw = split_bytes(&body, 0x0a);
    let ghost lines = trimmed_lines(bytes@);
    let mut trimmed: Vec<Vec<u8>> = Vec::new();
    let mut k: usize = 0;
    while k < raw.len()
        invariant
            k <= raw@.len(),
            raw@.len() == split(body@, 0x0au8).len(),
            forall|j: int| 0 <= j < raw@.len() ==> #[trigger] raw@[j]@ == split(body@, 0x0au8)[j],
            body@ == strip_bom(bytes@),
            lines == trimmed_lines(bytes@),
            trimmed@.len() == k,
            forall|j: int| 0 <= j < k ==> #[trigger] trimmed@[j]@ == lines[j],
        decreases raw@.len() - k,
    {
        trimmed.push(trim_line(&raw[k]));
        k += 1;
    }
    proof {
        lemma_kept(lines);
    }
    let mut last = trimmed.len();
    assert(lines.take(last as int) == lines);
    while last > 0 && trimmed[last - 1].len() == 0
        invariant
            last <= trimmed@.len(),
            trimmed@.len() == lines.len(),
            forall|j: int| 0 <= j < trimmed@.len() ==> #[trigger] trimmed@[j]@ == lines[j],
            kept(lines.take(last as int)) == kept(lines),
        decreases last,
    {
        assert(lines.take(last as int).drop_last() == lines.take(last - 1));
        last -= 1;
    }
    assert(kept(lines) == last) by {
        assert(lines.take(last as int).len() == last);
        if last > 0 {
            assert(lines.take(last as int).last() == lines[last - 1]);
        }
    }
    let mut out: Vec<u8> = Vec::new();
    if last == 0 {
        return out;
    }
    let mut j: usize = 0;
    while j < last
        invariant
            j <= last <= trimmed@.len(),
            trimmed@.len() == lines.len(),
            forall|m: int| 0 <= m < trimmed@.len() ==> #[trigger] trimmed@[m]@ == lines[m],
            out@ == join_lines(lines.take(j as int)),
        decreases last - j,
    {
        if j > 0 {
            out.push(0x0a);
        }
        let line = &trimmed[j];
        let ghost prior = out@;
        let mut m: usize = 0;
        while m < line.len()
            invariant
                m <= line@.len(),
                out@ == prior + line@.take(m as int),
            decreases line@.len() - m,
        {
            out.push(line[m]);
            m += 1;
            assert(line@.take(m as int) == line@.take(m - 1).push(line@[m - 1]));
        }
        assert(line@.take(line@.len() as int) == line@);
        j += 1;
        assert(lines.take(j as int).drop_last() == lines.take(j - 1));
        assert(lines.take(j as int).last() == lines[j - 1]);
    }
    out.push(0x0a);
    out
}

/// Exact and canonical digests of one file; see [`Fingerprint::of`].
#[derive(Debug, PartialEq, Eq)]
pub struct Fingerprint {
    /// Digest of the bytes as they are.
    pub exact: Digest,
    /// Digest of the canonical form.
    pub canonical: Digest,
}

impl Clone for Fingerprint {
    fn clone(&self) -> (out: Self)
        ensures
            out.exact@ == self.exact@ && out.canonical@ == self.canonical@,
    {
        Fingerprint { exact: self.exact.clone(), canonical: self.canonical.clone() }
    }
}

/// The fingerprint of `bytes`: their digest, and their canonical form's, which for binary content
/// is the same.
pub open spec fn fingerprint(bytes: Seq<u8>) -> (Seq<u8>, Seq<u8>) {
    (blake3(bytes), if binary(bytes) {
        blake3(bytes)
    } else {
        blake3(canonical(bytes))
    })
}

impl Fingerprint {
    /// Fingerprints `bytes`.
    ///
    /// The canonical form drops a UTF-8 BOM, strips trailing whitespace from every line, drops
    /// trailing blank lines and ends in exactly one `\n`. Binary content, git's test of a NUL in
    /// the first 8000 bytes, is its own canonical form.
    pub fn of(bytes: &[u8]) -> (f: Fingerprint)
        ensures
            (f.exact@, f.canonical@) == fingerprint(bytes@),
    {
        let exact = Digest::of(bytes);
        let canonical = if is_binary(bytes) {
            exact.clone()
        } else {
            Digest::of(&canonical_form(bytes))
        };
        Fingerprint { exact, canonical }
    }

    /// Whether `self` and `other` differ at most cosmetically.
    pub fn same_content(&self, other: &Fingerprint) -> (r: bool)
        ensures
            r == (self.canonical@ == other.canonical@),
    {
        self.canonical.same(&other.canonical)
    }

    /// Whether `self` and `other` are the same bytes, and so the same content.
    pub fn same(&self, other: &Fingerprint) -> (r: bool)
        ensures
            r == (self.exact@ == other.exact@ && self.canonical@ == other.canonical@),
    {
        self.exact.same(&other.exact) && self.canonical.same(&other.canonical)
    }
}

} // verus!
