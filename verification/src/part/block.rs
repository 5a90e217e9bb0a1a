//! Blocks a profile owns in a line-based file: the lines between two comment markers.
//!
//! Positions in a text are character positions.

use vstd::prelude::*;

use crate::path::{RelPath, extension_of, file_name_of};
use crate::text::{cat, chars_of, ends, is_space, starts, string_of};
use vstd::string::StrSliceExecFns;
use vstd::utf8::encode_utf8;

verus! {

/// A line comment syntax, which a block's markers are written in.
#[derive(Clone, Copy, Debug, PartialEq, Eq, Structural)]
pub enum Comment {
    /// `#`: shells, TOML, YAML, Python, `.gitignore`.
    Hash,
    /// `//`: C, Rust, JavaScript, JSONC.
    Slashes,
    /// `--`: SQL, Lua, Haskell.
    Dashes,
    /// `;`: INI, Lisp, assembly.
    Semicolon,
    /// `%`: TeX, Erlang, MATLAB.
    Percent,
    /// `/* */`: CSS.
    Star,
    /// `<!-- -->`: Markdown, HTML, XML.
    Angle,
}

impl Comment {
    /// What opens the comment, and what closes it on the same line.
    pub open spec fn delimiters_spec(self) -> (Seq<char>, Seq<char>) {
        match self {
            Comment::Hash => ("#"@, ""@),
            Comment::Slashes => ("//"@, ""@),
            Comment::Dashes => ("--"@, ""@),
            Comment::Semicolon => (";"@, ""@),
            Comment::Percent => ("%"@, ""@),
            Comment::Star => ("/*"@, " */"@),
            Comment::Angle => ("<!--"@, " -->"@),
        }
    }

    /// What opens the comment, and what closes it on the same line.
    pub fn delimiters(self) -> (r: (&'static str, &'static str))
        ensures
            (r.0@, r.1@) == self.delimiters_spec(),
    {
        match self {
            Comment::Hash => ("#", ""),
            Comment::Slashes => ("//", ""),
            Comment::Dashes => ("--", ""),
            Comment::Semicolon => (";", ""),
            Comment::Percent => ("%", ""),
            Comment::Star => ("/*", " */"),
            Comment::Angle => ("<!--", " -->"),
        }
    }
}

/// Whether `s` is one of `words`.
pub open spec fn one_of(s: Seq<char>, words: Seq<Seq<char>>) -> bool {
    exists|i: int| 0 <= i < words.len() && words[i] == s
}

/// Whether `s` is one of `words`.
fn is_one_of(s: &[char], words: &[&str]) -> (r: bool)
    ensures
        r == one_of(s@, words@.map_values(|w: &str| w@)),
{
    let ghost all = words@.map_values(|w: &str| w@);
    let mut i: usize = 0;
    while i < words.len()
        invariant
            i <= words@.len(),
            all == words@.map_values(|w: &str| w@),
            forall|j: int| 0 <= j < i ==> all[j] != s@,
        decreases words@.len() - i,
    {
        if crate::text::same(s, &chars_of(words[i])) {
            assert(all[i as int] == s@);
            return true;
        }
        i += 1;
    }
    false
}

/// File names whose comments are `#`.
pub open spec fn hash_names() -> Seq<Seq<char>> {
    seq![
        ".gitignore"@, ".gitattributes"@, ".dockerignore"@, ".editorconfig"@, "CODEOWNERS"@,
        "Makefile"@, "justfile"@, "Justfile"@, "Dockerfile"@, ".env"@,
    ]
}

/// Extensions whose comments are `#`.
pub open spec fn hash_exts() -> Seq<Seq<char>> {
    seq![
        "toml"@, "yml"@, "yaml"@, "sh"@, "bash"@, "zsh"@, "fish"@, "py"@, "rb"@, "conf"@, "cfg"@,
        "ini"@, "properties"@, "tf"@, "just"@, "env"@, "txt"@, "gitignore"@,
    ]
}

/// Extensions whose comments are `//`.
pub open spec fn slash_exts() -> Seq<Seq<char>> {
    seq![
        "jsonc"@, "js"@, "mjs"@, "cjs"@, "ts"@, "jsx"@, "tsx"@, "rs"@, "go"@, "c"@, "h"@, "cc"@,
        "cpp"@, "hpp"@, "java"@, "kt"@, "swift"@, "scala"@, "dart"@, "zig"@, "proto"@,
    ]
}

/// Extensions whose comments are `<!-- -->`.
pub open spec fn angle_exts() -> Seq<Seq<char>> {
    seq!["md"@, "markdown"@, "html"@, "htm"@, "xml"@, "svg"@, "vue"@]
}

/// Extensions whose comments are `--`.
pub open spec fn dash_exts() -> Seq<Seq<char>> {
    seq!["sql"@, "lua"@, "hs"@]
}

/// Extensions whose comments are `;`.
pub open spec fn semicolon_exts() -> Seq<Seq<char>> {
    seq!["el"@, "lisp"@, "clj"@, "asm"@]
}

/// Extensions whose comments are `%`.
pub open spec fn percent_exts() -> Seq<Seq<char>> {
    seq!["tex"@, "erl"@, "m"@]
}

/// Extensions whose comments are `/* */`.
pub open spec fn star_exts() -> Seq<Seq<char>> {
    seq!["css"@, "scss"@, "less"@]
}

/// The comment syntax of a file named `name`: by name, then by extension.
pub open spec fn comment_of(name: Seq<char>) -> Option<Comment> {
    if one_of(name, hash_names()) {
        Some(Comment::Hash)
    } else {
        match extension_of(name) {
            None => None,
            Some(ext) => if one_of(ext, hash_exts()) {
                Some(Comment::Hash)
            } else if one_of(ext, slash_exts()) {
                Some(Comment::Slashes)
            } else if one_of(ext, angle_exts()) {
                Some(Comment::Angle)
            } else if one_of(ext, dash_exts()) {
                Some(Comment::Dashes)
            } else if one_of(ext, semicolon_exts()) {
                Some(Comment::Semicolon)
            } else if one_of(ext, percent_exts()) {
                Some(Comment::Percent)
            } else if one_of(ext, star_exts()) {
                Some(Comment::Star)
            } else {
                None
            },
        }
    }
}

/// The comment syntax a file type writes markers in, when devset knows it.
pub fn comment(path: &RelPath) -> (r: Option<Comment>)
    ensures
        r == comment_of(file_name_of(path@)),
{
    let name = chars_of(path.file_name().as_str());
    let names = [
        ".gitignore",
        ".gitattributes",
        ".dockerignore",
        ".editorconfig",
        "CODEOWNERS",
        "Makefile",
        "justfile",
        "Justfile",
        "Dockerfile",
        ".env",
    ];
    assert(names@.map_values(|w: &str| w@) == hash_names());
    if is_one_of(&name, &names) {
        return Some(Comment::Hash);
    }
    let ext = match path.extension() {
        Some(ext) => chars_of(ext.as_str()),
        None => return None,
    };
    let hash = [
        "toml", "yml", "yaml", "sh", "bash", "zsh", "fish", "py", "rb", "conf", "cfg", "ini",
        "properties", "tf", "just", "env", "txt", "gitignore",
    ];
    let slash = [
        "jsonc", "js", "mjs", "cjs", "ts", "jsx", "tsx", "rs", "go", "c", "h", "cc", "cpp", "hpp",
        "java", "kt", "swift", "scala", "dart", "zig", "proto",
    ];
    let angle = ["md", "markdown", "html", "htm", "xml", "svg", "vue"];
    let dash = ["sql", "lua", "hs"];
    let semicolon = ["el", "lisp", "clj", "asm"];
    let percent = ["tex", "erl", "m"];
    let star = ["css", "scss", "less"];
    assert(hash@.map_values(|w: &str| w@) == hash_exts());
    assert(slash@.map_values(|w: &str| w@) == slash_exts());
    assert(angle@.map_values(|w: &str| w@) == angle_exts());
    assert(dash@.map_values(|w: &str| w@) == dash_exts());
    assert(semicolon@.map_values(|w: &str| w@) == semicolon_exts());
    assert(percent@.map_values(|w: &str| w@) == percent_exts());
    assert(star@.map_values(|w: &str| w@) == star_exts());
    if is_one_of(&ext, &hash) {
        Some(Comment::Hash)
    } else if is_one_of(&ext, &slash) {
        Some(Comment::Slashes)
    } else if is_one_of(&ext, &angle) {
        Some(Comment::Angle)
    } else if is_one_of(&ext, &dash) {
        Some(Comment::Dashes)
    } else if is_one_of(&ext, &semicolon) {
        Some(Comment::Semicolon)
    } else if is_one_of(&ext, &percent) {
        Some(Comment::Percent)
    } else if is_one_of(&ext, &star) {
        Some(Comment::Star)
    } else {
        None
    }
}

/// `s` without leading whitespace.
pub open spec fn trim_start(s: Seq<char>) -> Seq<char>
    decreases s.len(),
{
    if s.len() > 0 && is_space(s[0]) {
        trim_start(s.drop_first())
    } else {
        s
    }
}

/// `s` without trailing whitespace.
pub open spec fn trim_end(s: Seq<char>) -> Seq<char>
    decreases s.len(),
{
    if s.len() > 0 && is_space(s.last()) {
        trim_end(s.drop_last())
    } else {
        s
    }
}

/// `s` without leading and trailing whitespace, as `str::trim` has it.
pub open spec fn trim(s: Seq<char>) -> Seq<char> {
    trim_end(trim_start(s))
}

/// Whether `c` is whitespace.
pub fn space(c: char) -> (r: bool)
    ensures
        r == is_space(c),
{
    let n = c as u32;
    (0x09 <= n && n <= 0x0d) || n == 0x20 || n == 0x85 || n == 0xa0 || n == 0x1680 || (0x2000 <= n
        && n <= 0x200a) || n == 0x2028 || n == 0x2029 || n == 0x202f || n == 0x205f || n == 0x3000
}

/// `s` without trailing whitespace.
pub fn trimmed_end(s: &[char]) -> (out: Vec<char>)
    ensures
        out@ == trim_end(s@),
{
    let mut n = s.len();
    assert(s@.take(n as int) == s@);
    while n > 0 && space(s[n - 1])
        invariant
            n <= s@.len(),
            trim_end(s@.take(n as int)) == trim_end(s@),
        decreases n,
    {
        assert(s@.take(n as int).drop_last() == s@.take(n - 1));
        n -= 1;
    }
    crate::text::slice_of(s, 0, n)
}

/// `s` without leading and trailing whitespace.
pub fn trimmed(s: &[char]) -> (out: Vec<char>)
    ensures
        out@ == trim(s@),
{
    let mut i: usize = 0;
    assert(s@.skip(0) == s@);
    while i < s.len() && space(s[i])
        invariant
            i <= s@.len(),
            trim_start(s@.skip(i as int)) == trim_start(s@),
        decreases s@.len() - i,
    {
        assert(s@.skip(i as int).drop_first() == s@.skip(i + 1));
        i += 1;
    }
    let rest = crate::text::slice_of(s, i, s.len());
    assert(rest@ == s@.skip(i as int));
    trimmed_end(&rest)
}

/// Where the line that starts at `at` ends: just after its `\n`, or at the end of `text`.
pub open spec fn line_end(text: Seq<char>, at: int) -> int
    decreases text.len() - at,
{
    if at >= text.len() {
        text.len() as int
    } else if text[at] == '\n' {
        at + 1
    } else {
        line_end(text, at + 1)
    }
}

/// A line that starts inside the text ends after it starts, and inside the text.
pub proof fn lemma_line_end(text: Seq<char>, at: int)
    requires
        0 <= at < text.len(),
    ensures
        at < line_end(text, at) <= text.len(),
    decreases text.len() - at,
{
    if text[at] != '\n' {
        if at + 1 < text.len() {
            lemma_line_end(text, at + 1);
        } else {
            assert(line_end(text, at + 1) == text.len());
        }
    }
}

/// What breaks a block.
#[derive(Clone, Copy, Debug, PartialEq, Eq, Structural)]
pub enum Fault {
    /// A second opening marker.
    OpensTwice,
    /// A closing marker before any opening one.
    ClosesFirst,
    /// A second closing marker.
    ClosesTwice,
    /// An opening marker and no closing one.
    Unclosed,
}

impl Fault {
    /// Why the block is broken, as messages say it.
    pub open spec fn text(self) -> Seq<char> {
        match self {
            Fault::OpensTwice => "the block opens twice"@,
            Fault::ClosesFirst => "the block closes before it opens"@,
            Fault::ClosesTwice => "the block closes twice"@,
            Fault::Unclosed => "the block has no closing marker"@,
        }
    }

    /// Why the block is broken, as messages say it.
    pub fn message(self) -> (r: &'static str)
        ensures
            r@ == self.text(),
    {
        match self {
            Fault::OpensTwice => "the block opens twice",
            Fault::ClosesFirst => "the block closes before it opens",
            Fault::ClosesTwice => "the block closes twice",
            Fault::Unclosed => "the block has no closing marker",
        }
    }
}

/// How far a scan of a text's lines for one block's markers has come.
pub struct Scan {
    /// The opening marker's line, once met.
    pub open: Option<(int, int)>,
    /// Once the closing marker is met: the block's lines, and where the closing line ends.
    pub close: Option<((int, int), int)>,
}

/// The scan after the line `start..end` of `text`, or the fault that line is.
pub open spec fn step(
    scan: Scan,
    text: Seq<char>,
    start: int,
    end: int,
    open: Seq<char>,
    close: Seq<char>,
) -> Result<Scan, ((int, int), Fault)> {
    let line = trim(text.subrange(start, end));
    if line == open {
        if scan.open is Some {
            Err(((start, end), Fault::OpensTwice))
        } else {
            Ok(Scan { open: Some((start, end)), close: scan.close })
        }
    } else if line == close {
        match scan.open {
            None => Err(((start, end), Fault::ClosesFirst)),
            Some(o) => if scan.close is Some {
                Err(((start, end), Fault::ClosesTwice))
            } else {
                Ok(Scan { open: scan.open, close: Some(((o.1, start), end)) })
            },
        }
    } else {
        Ok(scan)
    }
}

/// The scan of `text`'s lines from `at` on, having come as far as `scan`.
pub open spec fn scan_from(
    text: Seq<char>,
    at: int,
    scan: Scan,
    open: Seq<char>,
    close: Seq<char>,
) -> Result<Scan, ((int, int), Fault)>
    decreases text.len() - at,
{
    if at < 0 || at >= text.len() {
        Ok(scan)
    } else {
        let end = line_end(text, at);
        proof {
            lemma_line_end(text, at);
        }
        match step(scan, text, at, end, open, close) {
            Err(fault) => Err(fault),
            Ok(next) => scan_from(text, end, next, open, close),
        }
    }
}

/// Where the block with markers `open` and `close` lies in `text`: the whole block, marker lines
/// included, and its lines; `None` when there is none; or where, and why, it is broken.
pub open spec fn located(text: Seq<char>, open: Seq<char>, close: Seq<char>) -> Result<
    Option<((int, int), (int, int))>,
    ((int, int), Fault),
> {
    match scan_from(text, 0, Scan { open: None, close: None }, open, close) {
        Err(fault) => Err(fault),
        Ok(scan) => match (scan.open, scan.close) {
            (None, _) => Ok(None),
            (Some(o), None) => Err((o, Fault::Unclosed)),
            (Some(o), Some((lines, end))) => Ok(Some(((o.0, end), lines))),
        },
    }
}

/// The lines that open and close one profile's block.
#[derive(Clone, Debug, PartialEq, Eq)]
pub struct Markers {
    /// The line that opens the block.
    open: String,
    /// The line that closes it.
    close: String,
}

/// The opening and closing lines of `owner`'s block in `comment` syntax.
pub open spec fn markers_of(comment: Comment, owner: Seq<char>) -> (Seq<char>, Seq<char>) {
    let (o, c) = comment.delimiters_spec();
    (o + " >>> devset: "@ + owner + " >>>"@ + c, o + " <<< devset: "@ + owner + " <<<"@ + c)
}

/// Whether `s` holds a `\r\n`, which decides the newline a block is written with.
pub open spec fn crlf(s: Seq<char>) -> bool {
    exists|i: int| 0 <= i < s.len() - 1 && #[trigger] s[i] == '\r' && s[i + 1] == '\n'
}

/// The newline of text `s`: `\r\n` if it has one, else `\n`.
pub open spec fn newline_of(s: Seq<char>) -> Seq<char> {
    if crlf(s) {
        seq!['\r', '\n']
    } else {
        seq!['\n']
    }
}

/// Whether `s` holds a `\r\n`.
fn has_crlf(s: &[char]) -> (r: bool)
    ensures
        r == crlf(s@),
{
    let mut i: usize = 0;
    while i < s.len() && i + 1 < s.len()
        invariant
            i <= s@.len(),
            forall|j: int| 0 <= j < i && j < s@.len() - 1 ==> !(#[trigger] s@[j] == '\r' && s@[j + 1] == '\n'),
        decreases s@.len() - i,
    {
        if s[i] == '\r' && s[i + 1] == '\n' {
            return true;
        }
        i += 1;
    }
    false
}

/// The newline of `s`.
fn newline(s: &[char]) -> (r: Vec<char>)
    ensures
        r@ == newline_of(s@),
{
    let mut r = Vec::new();
    if has_crlf(s) {
        r.push('\r');
    }
    r.push('\n');
    proof {
        if crlf(s@) {
            assert(r@ == seq!['\r', '\n']);
        } else {
            assert(r@ == seq!['\n']);
        }
    }
    r
}

/// `s` with every `pat` replaced by `rep`, left to right, from `at` on.
pub open spec fn replace_from(s: Seq<char>, at: int, pat: Seq<char>, rep: Seq<char>) -> Seq<char>
    recommends
        pat.len() > 0,
    decreases s.len() - at,
{
    if at < 0 || at >= s.len() || pat.len() == 0 {
        s.skip(if at < 0 { 0 } else { at })
    } else if starts(s.skip(at), pat) {
        rep + replace_from(s, at + pat.len(), pat, rep)
    } else {
        seq![s[at]] + replace_from(s, at + 1, pat, rep)
    }
}

/// `s` with every `pat` replaced by `rep`, as `str::replace` replaces.
pub open spec fn replace(s: Seq<char>, pat: Seq<char>, rep: Seq<char>) -> Seq<char> {
    replace_from(s, 0, pat, rep)
}

/// `s` with every `pat` replaced by `rep`.
fn replaced(s: &[char], pat: &[char], rep: &[char]) -> (out: Vec<char>)
    requires
        pat@.len() > 0,
    ensures
        out@ == replace(s@, pat@, rep@),
{
    let mut out: Vec<char> = Vec::new();
    let mut i: usize = 0;
    while i < s.len()
        invariant
            i <= s@.len(),
            pat@.len() > 0,
            out@ + replace_from(s@, i as int, pat@, rep@) == replace(s@, pat@, rep@),
        decreases s@.len() - i,
    {
        let rest = crate::text::slice_of(s, i, s.len());
        assert(rest@ == s@.skip(i as int));
        if crate::text::starts_with(&rest, pat) {
            let ghost before = out@;
            let mut k: usize = 0;
            while k < rep.len()
                invariant
                    k <= rep@.len(),
                    out@ == before + rep@.take(k as int),
                decreases rep@.len() - k,
            {
                out.push(rep[k]);
                k += 1;
                assert(rep@.take(k as int) == rep@.take(k - 1).push(rep@[k - 1]));
            }
            assert(rep@.take(rep@.len() as int) == rep@);
            assert(out@ + replace_from(s@, i + pat@.len(), pat@, rep@) == before + (rep@ + replace_from(s@, i + pat@.len(), pat@, rep@)));
            i += pat.len();
        } else {
            let ghost before = out@;
            out.push(s[i]);
            assert(out@ + replace_from(s@, i + 1, pat@, rep@) == before + (seq![s@[i as int]] + replace_from(s@, i + 1, pat@, rep@)));
            i += 1;
        }
    }
    assert(replace_from(s@, i as int, pat@, rep@) == Seq::<char>::empty());
    assert(out@ + Seq::<char>::empty() == out@);
    out
}

/// The scan a block search has come to, from what it has found.
pub open spec fn scan_of(open: Option<(usize, usize)>, close: Option<((usize, usize), usize)>) -> Scan {
    Scan {
        open: match open {
            Some(o) => Some((o.0 as int, o.1 as int)),
            None => None,
        },
        close: match close {
            Some(c) => Some(((c.0.0 as int, c.0.1 as int), c.1 as int)),
            None => None,
        },
    }
}

/// A span as integers.
pub open spec fn span(s: (usize, usize)) -> (int, int) {
    (s.0 as int, s.1 as int)
}

/// Where the character at `i` of `text` begins, counted in the bytes of its UTF-8, as a `usize`
/// holds it.
pub open spec fn byte_at(text: Seq<char>, i: int) -> int {
    (encode_utf8(text.take(i)).len() as usize) as int
}

/// A span of the characters of `text`, as a span of its bytes.
pub open spec fn byte_span(text: Seq<char>, s: (int, int)) -> (int, int) {
    (byte_at(text, s.0), byte_at(text, s.1))
}

/// The span `s` of the characters of `text`, in bytes.
fn to_bytes(text: &str, s: (usize, usize)) -> (r: (usize, usize))
    requires
        s.0 <= s.1 <= text@.len(),
    ensures
        span(r) == byte_span(text@, span(s)),
{
    let a = text.substring_char(0, s.0);
    let b = text.substring_char(0, s.1);
    assert(a@ =~= text@.take(s.0 as int));
    assert(b@ =~= text@.take(s.1 as int));
    (a.len(), b.len())
}

/// Where the block's lines lie in `text`, or why it is broken.
pub open spec fn found_lines(text: Seq<char>, open: Seq<char>, close: Seq<char>) -> Result<
    Option<(int, int)>,
    ((int, int), Fault),
> {
    match located(text, open, close) {
        Err(fault) => Err(fault),
        Ok(None) => Ok(None),
        Ok(Some((_, lines))) => Ok(Some(lines)),
    }
}

/// `text` with the block's lines as `content` writes them: in place, or appended after a blank
/// line, in the file's line endings.
pub open spec fn body_of(text: Seq<char>, content: Seq<char>) -> Seq<char> {
    let once = replace(content, seq!['\r', '\n'], seq!['\n']);
    let body = if crlf(text) {
        replace(once, seq!['\n'], seq!['\r', '\n'])
    } else {
        once
    };
    if body.len() > 0 && body.last() != '\n' {
        body + newline_of(text)
    } else {
        body
    }
}

/// `text` with the block holding `content`, or why it cannot.
pub open spec fn spliced(text: Seq<char>, content: Seq<char>, open: Seq<char>, close: Seq<char>) -> Result<
    Seq<char>,
    ((int, int), Fault),
> {
    let nl = newline_of(text);
    let body = body_of(text, content);
    match located(text, open, close) {
        Err(fault) => Err(fault),
        Ok(Some((_, lines))) => Ok(text.subrange(0, lines.0) + body + text.subrange(lines.1, text.len() as int)),
        Ok(None) => {
            let ended = if text.len() > 0 && text.last() != '\n' {
                text + nl
            } else {
                text
            };
            let spaced = if trim(ended).len() > 0 {
                ended + nl
            } else {
                ended
            };
            Ok(spaced + open + nl + body + close + nl)
        },
    }
}

/// `text` without the block, its markers included, and without the blank line a splice set
/// before it; or why it cannot be taken out.
pub open spec fn removed(text: Seq<char>, open: Seq<char>, close: Seq<char>) -> Result<
    Seq<char>,
    ((int, int), Fault),
> {
    match located(text, open, close) {
        Err(fault) => Err(fault),
        Ok(None) => Ok(text),
        Ok(Some((whole, _))) => {
            let before = text.subrange(0, whole.0);
            let after = text.subrange(whole.1, text.len() as int);
            if trim(after).len() == 0 {
                let kept = trim_end(before);
                Ok(if kept.len() == 0 {
                    Seq::empty()
                } else {
                    kept + newline_of(text)
                })
            } else if ends(before, seq!['\n', '\n']) || ends(before, seq!['\r', '\n', '\r', '\n']) {
                Ok(before + if starts(after, seq!['\r', '\n']) {
                    after.skip(2)
                } else if starts(after, seq!['\n']) {
                    after.skip(1)
                } else {
                    after
                })
            } else {
                Ok(before + after)
            }
        },
    }
}

/// Trimming the end of `s` leaves a beginning of `s`.
proof fn lemma_trim_end_prefix(s: Seq<char>)
    ensures
        trim_end(s).len() <= s.len(),
        s.take(trim_end(s).len() as int) == trim_end(s),
    decreases s.len(),
{
    if s.len() > 0 && is_space(s.last()) {
        lemma_trim_end_prefix(s.drop_last());
        assert(s.take(trim_end(s).len() as int) =~= s.drop_last().take(trim_end(s).len() as int));
    } else {
        assert(s.take(s.len() as int) =~= s);
    }
}

/// Taking a block out keeps the rest of the text. A text with no block is left as it is. Of a
/// text with one, what comes before the block, but for its trailing whitespace, begins the
/// result; when nothing but whitespace follows the block, at most a line break follows that;
/// otherwise the result is all that comes before the block and all that comes after it, but
/// for at most the one line break right after the block. It is taken out whenever it is found.
pub proof fn remove_keeps_the_rest(text: Seq<char>, open: Seq<char>, close: Seq<char>)
    ensures
        located(text, open, close) is Ok <==> removed(text, open, close) is Ok,
        located(text, open, close) matches Err(f) ==> removed(text, open, close) == Err::<Seq<char>, _>(f),
        located(text, open, close) == Ok::<_, ((int, int), Fault)>(None::<((int, int), (int, int))>) ==> removed(text, open, close) == Ok::<_, ((int, int), Fault)>(text),
        located(text, open, close) matches Ok(Some((whole, _))) ==> ({
            let before = text.subrange(0, whole.0);
            let after = text.subrange(whole.1, text.len() as int);
            let kept = trim_end(before);
            &&& removed(text, open, close) matches Ok(r) && kept.len() <= r.len() && r.take(kept.len() as int) == kept
            &&& trim(after).len() == 0 ==> (removed(text, open, close) matches Ok(r) && r.len() <= kept.len() + 2)
            &&& trim(after).len() > 0 ==> (removed(text, open, close) matches Ok(r) && exists|n: int| 0 <= n <= 2 && n <= after.len() && r
                == before + after.skip(n) && forall|j: int| 0 <= j < n ==> (#[trigger] after[j] == '\r' || after[j] == '\n'))
        }),
{
    if let Ok(Some((whole, _))) = located(text, open, close) {
        let before = text.subrange(0, whole.0);
        let after = text.subrange(whole.1, text.len() as int);
        let kept = trim_end(before);
        lemma_trim_end_prefix(before);
        let r = removed(text, open, close)->Ok_0;
        if trim(after).len() == 0 {
            if kept.len() > 0 {
                assert((kept + newline_of(text)).take(kept.len() as int) =~= kept);
            }
        } else {
            assert((before + after).take(kept.len() as int) =~= before.take(kept.len() as int));
            if ends(before, seq!['\n', '\n']) || ends(before, seq!['\r', '\n', '\r', '\n']) {
                if starts(after, seq!['\r', '\n']) {
                    assert(after.take(2) == seq!['\r', '\n']);
                    assert(after[0] == after.take(2)[0] && after[1] == after.take(2)[1]);
                    assert((before + after.skip(2)).take(kept.len() as int) =~= before.take(kept.len() as int));
                } else if starts(after, seq!['\n']) {
                    assert(after.take(1) == seq!['\n']);
                    assert(after[0] == after.take(1)[0]);
                    assert((before + after.skip(1)).take(kept.len() as int) =~= before.take(kept.len() as int));
                } else {
                    assert(after.skip(0) =~= after);
                }
            } else {
                assert(after.skip(0) =~= after);
            }
        }
    }
}

/// Whitespace after `s` leaves its trimmed end as it was.
proof fn lemma_trim_end_spaces(s: Seq<char>, w: Seq<char>)
    requires
        forall|i: int| 0 <= i < w.len() ==> is_space(#[trigger] w[i]),
    ensures
        trim_end(s + w) == trim_end(s),
    decreases w.len(),
{
    if w.len() == 0 {
        assert(s + w =~= s);
    } else {
        assert((s + w).last() == w.last());
        assert((s + w).drop_last() =~= s + w.drop_last());
        lemma_trim_end_spaces(s, w.drop_last());
    }
}

/// Nothing but whitespace trims to nothing at its start.
proof fn lemma_trim_start_spaces(w: Seq<char>)
    requires
        forall|i: int| 0 <= i < w.len() ==> is_space(#[trigger] w[i]),
    ensures
        trim_start(w).len() == 0,
    decreases w.len(),
{
    if w.len() > 0 {
        lemma_trim_start_spaces(w.drop_first());
    }
}

/// Trimming the start of `s + w`: the trimmed start of `s` and then `w`, or `w` trimmed where
/// `s` is all whitespace.
proof fn lemma_trim_start_concat(s: Seq<char>, w: Seq<char>)
    ensures
        trim_start(s + w) == if trim_start(s).len() > 0 {
            trim_start(s) + w
        } else {
            trim_start(w)
        },
    decreases s.len(),
{
    if s.len() == 0 {
        assert(s + w =~= w);
    } else {
        assert((s + w)[0] == s[0]);
        if is_space(s[0]) {
            assert((s + w).drop_first() =~= s.drop_first() + w);
            lemma_trim_start_concat(s.drop_first(), w);
        }
    }
}

/// Whitespace after `s` leaves it trimmed as it was.
proof fn lemma_trim_spaces(s: Seq<char>, w: Seq<char>)
    requires
        forall|i: int| 0 <= i < w.len() ==> is_space(#[trigger] w[i]),
    ensures
        trim(s + w) == trim(s),
{
    lemma_trim_start_concat(s, w);
    lemma_trim_start_spaces(w);
    if trim_start(s).len() > 0 {
        lemma_trim_end_spaces(trim_start(s), w);
    } else {
        assert(trim_start(w) =~= Seq::<char>::empty());
    }
}

/// A text whose end trims to nothing trims to nothing.
proof fn lemma_blank(s: Seq<char>)
    ensures
        trim_end(s).len() == 0 ==> trim(s).len() == 0,
{
    lemma_blank_start(s);
}

/// A text whose end trims to nothing trims to nothing at its start.
proof fn lemma_blank_start(s: Seq<char>)
    ensures
        trim_end(s).len() == 0 ==> trim_start(s).len() == 0,
    decreases s.len(),
{
    if s.len() > 0 && trim_end(s).len() == 0 {
        let last = s.last();
        lemma_blank_start(s.drop_last());
        assert(s =~= s.drop_last() + seq![last]);
        lemma_trim_start_concat(s.drop_last(), seq![last]);
        lemma_trim_start_spaces(seq![last]);
    }
}

/// A line of `a`, which ends in a line break, ends at the same place within any text that holds
/// `a` at `off`.
proof fn lemma_line_end_within(x: Seq<char>, off: int, a: Seq<char>, at: int)
    requires
        0 <= off,
        off + a.len() <= x.len(),
        x.subrange(off, off + a.len()) == a,
        a.len() > 0 && a.last() == '\n',
        0 <= at < a.len(),
    ensures
        line_end(x, off + at) == off + line_end(a, at),
    decreases a.len() - at,
{
    assert(x[off + at] == x.subrange(off, off + a.len())[at]);
    if a[at] != '\n' {
        lemma_line_end_within(x, off, a, at + 1);
    }
}

/// A line with no break before `q` and a break at `q` ends just after `q`.
proof fn lemma_line_end_at(x: Seq<char>, p: int, q: int)
    requires
        0 <= p <= q < x.len(),
        x[q] == '\n',
        forall|i: int| p <= i < q ==> #[trigger] x[i] != '\n',
    ensures
        line_end(x, p) == q + 1,
    decreases q - p,
{
    if p < q {
        lemma_line_end_at(x, p + 1, q);
    }
}

/// Whether no line of `text` from `at` on is either marker, once trimmed.
spec fn quiet(text: Seq<char>, at: int, open: Seq<char>, close: Seq<char>) -> bool
    decreases text.len() - at,
{
    if at < 0 || at >= text.len() {
        true
    } else {
        let end = line_end(text, at);
        proof {
            lemma_line_end(text, at);
        }
        let line = trim(text.subrange(at, end));
        line != open && line != close && quiet(text, end, open, close)
    }
}

/// Once the opening marker is met, a scan that goes through keeps it.
proof fn lemma_open_stays(text: Seq<char>, at: int, scan: Scan, open: Seq<char>, close: Seq<char>)
    requires
        scan.open is Some,
    ensures
        scan_from(text, at, scan, open, close) matches Ok(r) ==> r.open is Some,
    decreases text.len() - at,
{
    if 0 <= at < text.len() {
        let end = line_end(text, at);
        lemma_line_end(text, at);
        if let Ok(next) = step(scan, text, at, end, open, close) {
            lemma_open_stays(text, end, next, open, close);
        }
    }
}

/// A scan from nothing that meets no opening marker met no marker at all.
proof fn lemma_quiet(text: Seq<char>, at: int, open: Seq<char>, close: Seq<char>)
    requires
        scan_from(text, at, Scan { open: None, close: None }, open, close) matches Ok(r) && r.open is None,
    ensures
        quiet(text, at, open, close),
    decreases text.len() - at,
{
    if 0 <= at < text.len() {
        let end = line_end(text, at);
        lemma_line_end(text, at);
        let empty = Scan { open: None, close: None };
        if let Ok(next) = step(empty, text, at, end, open, close) {
            if next.open is Some {
                lemma_open_stays(text, end, next, open, close);
            } else {
                lemma_quiet(text, end, open, close);
            }
        }
    }
}

/// A scan passes over lines that are no markers, whatever it has come to.
proof fn lemma_scan_quiet(x: Seq<char>, off: int, a: Seq<char>, at: int, scan: Scan, open: Seq<char>, close: Seq<char>)
    requires
        0 <= off,
        off + a.len() <= x.len(),
        x.subrange(off, off + a.len()) == a,
        a.len() == 0 || a.last() == '\n',
        0 <= at <= a.len(),
        quiet(a, at, open, close),
    ensures
        scan_from(x, off + at, scan, open, close) == scan_from(x, off + a.len(), scan, open, close),
    decreases a.len() - at,
{
    if at < a.len() {
        let end = line_end(a, at);
        lemma_line_end(a, at);
        lemma_line_end_within(x, off, a, at);
        assert(x.subrange(off + at, off + end) =~= a.subrange(at, end));
        assert(step(scan, x, off + at, off + end, open, close) == Ok::<_, ((int, int), Fault)>(scan));
        lemma_scan_quiet(x, off, a, end, scan, open, close);
    }
}

/// A line break is whitespace.
proof fn lemma_break_spaces(nl: Seq<char>)
    requires
        nl == seq!['\n'] || nl == seq!['\r', '\n'],
    ensures
        forall|i: int| 0 <= i < nl.len() ==> is_space(#[trigger] nl[i]),
        nl.len() > 0 && nl.last() == '\n',
        forall|i: int| 0 <= i < nl.len() - 1 ==> #[trigger] nl[i] != '\n',
{
    assert(is_space('\n'));
    assert(is_space('\r'));
}

/// With a line break put after a text that lacks one, its last line ends after that break.
proof fn lemma_line_end_ended(t: Seq<char>, nl: Seq<char>, at: int)
    requires
        t.len() > 0 && t.last() != '\n',
        nl == seq!['\n'] || nl == seq!['\r', '\n'],
        0 <= at < t.len(),
    ensures
        line_end(t + nl, at) == if line_end(t, at) < t.len() {
            line_end(t, at)
        } else {
            (t.len() + nl.len()) as int
        },
    decreases t.len() - at,
{
    assert((t + nl)[at] == t[at]);
    if t[at] != '\n' {
        if at + 1 < t.len() {
            lemma_line_end_ended(t, nl, at + 1);
        } else {
            lemma_break_spaces(nl);
            let x = t + nl;
            assert forall|i: int| t.len() <= i < t.len() + nl.len() - 1 implies #[trigger] x[i] != '\n' by {
                assert(x[i] == nl[i - t.len()]);
            }
            assert(x[t.len() + nl.len() - 1] == nl.last());
            lemma_line_end_at(x, t.len() as int, t.len() + nl.len() - 1);
        }
    }
}

/// A text with no marker line has none once a line break ends its last line.
proof fn lemma_quiet_ended(t: Seq<char>, nl: Seq<char>, at: int, open: Seq<char>, close: Seq<char>)
    requires
        t.len() > 0 && t.last() != '\n',
        nl == seq!['\n'] || nl == seq!['\r', '\n'],
        0 <= at < t.len(),
        quiet(t, at, open, close),
    ensures
        quiet(t + nl, at, open, close),
    decreases t.len() - at,
{
    let e = line_end(t, at);
    lemma_line_end(t, at);
    lemma_line_end_ended(t, nl, at);
    if e < t.len() {
        assert((t + nl).subrange(at, e) =~= t.subrange(at, e));
        lemma_quiet_ended(t, nl, e, open, close);
    } else {
        assert((t + nl).subrange(at, (t.len() + nl.len()) as int) =~= t.subrange(at, e) + nl);
        lemma_break_spaces(nl);
        lemma_trim_spaces(t.subrange(at, e), nl);
        assert(quiet(t + nl, (t.len() + nl.len()) as int, open, close));
    }
}

/// A line that is a marker and a line break is that marker, once trimmed, and ends after the break.
proof fn lemma_marker_line(s: Seq<char>, p: int, m: Seq<char>, nl: Seq<char>)
    requires
        0 <= p,
        p + m.len() + nl.len() <= s.len(),
        s.subrange(p, p + m.len() + nl.len()) == m + nl,
        trim(m) == m,
        forall|i: int| 0 <= i < m.len() ==> m[i] != '\n',
        nl == seq!['\n'] || nl == seq!['\r', '\n'],
    ensures
        line_end(s, p) == p + m.len() + nl.len(),
        trim(s.subrange(p, line_end(s, p))) == m,
{
    lemma_break_spaces(nl);
    let q = p + m.len() + nl.len() - 1;
    assert forall|i: int| p <= i < q implies #[trigger] s[i] != '\n' by {
        assert(s[i] == s.subrange(p, p + m.len() + nl.len())[i - p]);
        assert((m + nl)[i - p] != '\n');
    }
    assert(s[q] == s.subrange(p, p + m.len() + nl.len())[q - p]);
    assert((m + nl)[q - p] == nl.last());
    lemma_line_end_at(s, p, q);
    lemma_trim_spaces(m, nl);
}

/// Taking a block out undoes putting it in. Into a text that has no block and is not blank, a
/// splice appends the block after a blank line; taking that block out again gives back the text
/// up to its trailing whitespace, ended by one line break. This holds for markers that are lines
/// of their own (two different, non-empty, trimmed lines with no line break in them) and for
/// content whose lines, as the block writes them, hold neither marker.
#[verifier::spinoff_prover]
#[verifier::rlimit(100)]
pub proof fn remove_undoes_splice(t: Seq<char>, c: Seq<char>, open: Seq<char>, close: Seq<char>)
    requires
        located(t, open, close) matches Ok(None),
        trim(t).len() > 0,
        open.len() > 0,
        close.len() > 0,
        open != close,
        trim(open) == open,
        trim(close) == close,
        forall|i: int| 0 <= i < open.len() ==> open[i] != '\n',
        forall|i: int| 0 <= i < close.len() ==> close[i] != '\n',
        located(body_of(t, c), open, close) matches Ok(None),
    ensures
        spliced(t, c, open, close) matches Ok(s) && removed(s, open, close) == Ok::<_, ((int, int), Fault)>(
            trim_end(t) + newline_of(s)),
{
    let empty = Scan { open: None, close: None };
    let nl = newline_of(t);
    lemma_break_spaces(nl);
    let body = body_of(t, c);
    lemma_blank(t);
    let ended = if t.len() > 0 && t.last() != '\n' {
        t + nl
    } else {
        t
    };
    lemma_trim_spaces(t, nl);
    let spaced = ended + nl;
    let s = spaced + open + nl + body + close + nl;
    assert(spliced(t, c, open, close) == Ok::<_, ((int, int), Fault)>(s));
    // the text's own lines
    lemma_quiet(t, 0, open, close);
    if t.last() != '\n' {
        lemma_quiet_ended(t, nl, 0, open, close);
    }
    assert(s.subrange(0, ended.len() as int) =~= ended);
    lemma_scan_quiet(s, 0, ended, 0, empty, open, close);
    // the blank line
    lemma_line_end_at(nl, 0, nl.len() - 1);
    lemma_trim_spaces(Seq::<char>::empty(), nl);
    assert(Seq::<char>::empty() + nl =~= nl);
    assert(nl.subrange(0, nl.len() as int) =~= nl);
    assert(trim(Seq::<char>::empty()).len() == 0);
    assert(quiet(nl, nl.len() as int, open, close));
    assert(quiet(nl, 0, open, close));
    assert(s.subrange(ended.len() as int, spaced.len() as int) =~= nl);
    lemma_scan_quiet(s, ended.len() as int, nl, 0, empty, open, close);
    // the opening line
    let p = spaced.len() as int;
    let e1 = p + open.len() + nl.len();
    assert(s.subrange(p, e1) =~= open + nl);
    lemma_marker_line(s, p, open, nl);
    let s1 = Scan { open: Some((p, e1)), close: None };
    assert(step(empty, s, p, e1, open, close) == Ok::<_, ((int, int), Fault)>(s1));
    assert(scan_from(s, p, empty, open, close) == scan_from(s, e1, s1, open, close));
    // the block's lines
    lemma_quiet(body, 0, open, close);
    assert(s.subrange(e1, e1 + body.len()) =~= body);
    lemma_scan_quiet(s, e1, body, 0, s1, open, close);
    // the closing line
    let p2 = e1 + body.len();
    let e2 = p2 + close.len() + nl.len();
    assert(e2 == s.len());
    assert(s.subrange(p2, e2) =~= close + nl);
    lemma_marker_line(s, p2, close, nl);
    let s2 = Scan { open: Some((p, e1)), close: Some(((e1, p2), e2)) };
    assert(step(s1, s, p2, e2, open, close) == Ok::<_, ((int, int), Fault)>(s2));
    assert(scan_from(s, p2, s1, open, close) == scan_from(s, e2, s2, open, close));
    assert(scan_from(s, 0, empty, open, close) == Ok::<_, ((int, int), Fault)>(s2));
    assert(located(s, open, close) == Ok::<_, ((int, int), Fault)>(Some(((p, e2), (e1, p2)))));
    // taking it out
    assert(s.subrange(0, p) =~= spaced);
    assert(s.subrange(e2, s.len() as int) =~= Seq::<char>::empty());
    if t.last() != '\n' {
        assert(spaced =~= t + (nl + nl));
        assert forall|i: int| 0 <= i < (nl + nl).len() implies is_space(#[trigger] (nl + nl)[i]) by {
            if i >= nl.len() {
                assert((nl + nl)[i] == nl[i - nl.len()]);
            }
        }
        lemma_trim_end_spaces(t, nl + nl);
    } else {
        lemma_trim_end_spaces(t, nl);
    }
}

impl Markers {
    /// The opening marker.
    pub closed spec fn open_spec(&self) -> Seq<char> {
        self.open@
    }

    /// The closing marker.
    pub closed spec fn close_spec(&self) -> Seq<char> {
        self.close@
    }

    /// The markers of `owner`'s block, in `comment` syntax.
    pub fn new(comment: Comment, owner: &str) -> (m: Markers)
        ensures
            (m.open_spec(), m.close_spec()) == markers_of(comment, owner@),
    {
        let (open, close) = comment.delimiters();
        let o = cat(open, " >>> devset: ");
        let o = cat(o.as_str(), owner);
        let o = cat(o.as_str(), " >>>");
        let o = cat(o.as_str(), close);
        let c = cat(open, " <<< devset: ");
        let c = cat(c.as_str(), owner);
        let c = cat(c.as_str(), " <<<");
        let c = cat(c.as_str(), close);
        Markers { open: o, close: c }
    }

    /// Where the block lies in `text`: the whole block and its lines; `None` when there is none.
    fn locate(&self, text: &[char]) -> (r: Result<Option<((usize, usize), (usize, usize))>, ((usize, usize), Fault)>)
        ensures
            match r {
                Ok(None) => located(text@, self.open@, self.close@) == Ok::<_, ((int, int), Fault)>(None::<((int, int), (int, int))>),
                Ok(Some((whole, lines))) => located(text@, self.open@, self.close@) == Ok::<_, ((int, int), Fault)>(Some((span(whole), span(lines))))
                    && whole.0 <= lines.0 <= lines.1 <= whole.1 <= text@.len(),
                Err((at, fault)) => located(text@, self.open@, self.close@) == Err::<Option<((int, int), (int, int))>, _>((span(at), fault))
                    && at.0 <= at.1 <= text@.len(),
            },
    {
        let open = chars_of(self.open.as_str());
        let close = chars_of(self.close.as_str());
        let n = text.len();
        let mut at: usize = 0;
        let mut o: Option<(usize, usize)> = None;
        let mut c: Option<((usize, usize), usize)> = None;
        let ghost init = Scan { open: None, close: None };
        assert(scan_of(o, c) == init);
        while at < n
            invariant
                n == text@.len(),
                at <= n,
                init == (Scan { open: None, close: None }),
                open@ == self.open@,
                close@ == self.close@,
                scan_from(text@, at as int, scan_of(o, c), open@, close@) == scan_from(text@, 0, init, open@, close@),
                o matches Some(sp) ==> sp.0 <= sp.1 <= at,
                c matches Some(cl) ==> (o matches Some(sp) && sp.1 == cl.0.0 && cl.0.0 <= cl.0.1 <= cl.1 <= at),
            decreases n - at,
        {
            let mut e = at;
            while e < n && text[e] != '\n'
                invariant
                    at <= e <= n,
                    n == text@.len(),
                    line_end(text@, e as int) == line_end(text@, at as int),
                decreases n - e,
            {
                e += 1;
            }
            if e < n {
                e += 1;
            }
            assert(e == line_end(text@, at as int));
            let line = trimmed(&crate::text::slice_of(text, at, e));
            let ghost stepped = step(scan_of(o, c), text@, at as int, e as int, open@, close@);
            assert(line@ == trim(text@.subrange(at as int, e as int)));
            assert(scan_from(text@, at as int, scan_of(o, c), open@, close@) == match stepped {
                Err(fault) => Err(fault),
                Ok(next) => scan_from(text@, e as int, next, open@, close@),
            });
            if crate::text::same(&line, &open) {
                if o.is_some() {
                    return Err(((at, e), Fault::OpensTwice));
                }
                o = Some((at, e));
            } else if crate::text::same(&line, &close) {
                match o {
                    None => return Err(((at, e), Fault::ClosesFirst)),
                    Some(op) => {
                        if c.is_some() {
                            return Err(((at, e), Fault::ClosesTwice));
                        }
                        c = Some(((op.1, at), e));
                    },
                }
            }
            at = e;
        }
        match (o, c) {
            (None, _) => Ok(None),
            (Some(op), None) => Err((op, Fault::Unclosed)),
            (Some(op), Some((lines, end))) => Ok(Some(((op.0, end), lines))),
        }
    }

    /// Where the block's lines lie in `text`, marker lines excluded; `None` when there is no
    /// block. `Err` holds the offending line's span and why it breaks the block.
    pub fn find(&self, text: &str) -> (r: Result<Option<(usize, usize)>, ((usize, usize), Fault)>)
        ensures
            match r {
                Ok(None) => found_lines(text@, self.open_spec(), self.close_spec()) == Ok::<_, ((int, int), Fault)>(None::<(int, int)>),
                Ok(Some(lines)) => exists|l: (int, int)| found_lines(text@, self.open_spec(), self.close_spec()) == Ok::<_, ((int, int), Fault)>(Some(l))
                    && 0 <= l.0 <= l.1 <= text@.len() && span(lines) == byte_span(text@, l),
                Err((at, fault)) => exists|a: (int, int)| found_lines(text@, self.open_spec(), self.close_spec()) == Err::<Option<(int, int)>, _>((a, fault))
                    && span(at) == byte_span(text@, a),
            },
    {
        let chars = chars_of(text);
        match self.locate(&chars) {
            Ok(None) => Ok(None),
            Ok(Some((_, lines))) => Ok(Some(to_bytes(text, lines))),
            Err((at, fault)) => Err((to_bytes(text, at), fault)),
        }
    }

    /// The block's lines in `text`, marker lines excluded; `None` when there is no block. `Err`
    /// holds the offending line's span, in bytes, and why it breaks the block.
    pub fn lines(&self, text: &str) -> (r: Result<Option<String>, ((usize, usize), Fault)>)
        ensures
            match r {
                Ok(None) => found_lines(text@, self.open_spec(), self.close_spec()) == Ok::<_, ((int, int), Fault)>(None::<(int, int)>),
                Ok(Some(body)) => exists|l: (int, int)| found_lines(text@, self.open_spec(), self.close_spec()) == Ok::<_, ((int, int), Fault)>(Some(l))
                    && 0 <= l.0 <= l.1 <= text@.len() && body@ == text@.subrange(l.0, l.1),
                Err((at, fault)) => exists|a: (int, int)| found_lines(text@, self.open_spec(), self.close_spec()) == Err::<Option<(int, int)>, _>((a, fault))
                    && span(at) == byte_span(text@, a),
            },
    {
        let chars = chars_of(text);
        match self.locate(&chars) {
            Ok(None) => Ok(None),
            Ok(Some((_, lines))) => {
                let body = string_of(&crate::text::slice_of(&chars, lines.0, lines.1));
                Ok(Some(body))
            },
            Err((at, fault)) => Err((to_bytes(text, at), fault)),
        }
    }

    /// `text` without the block, its markers included, and without the blank line
    /// [`splice`](Self::splice) set before it.
    pub fn remove(&self, text: &str) -> (r: Result<String, ((usize, usize), Fault)>)
        ensures
            match r {
                Ok(out) => removed(text@, self.open_spec(), self.close_spec()) == Ok::<_, ((int, int), Fault)>(out@),
                Err((at, fault)) => exists|a: (int, int)| removed(text@, self.open_spec(), self.close_spec()) == Err::<Seq<char>, _>((a, fault))
                    && span(at) == byte_span(text@, a),
            },
    {
        let chars = chars_of(text);
        let (whole, _) = match self.locate(&chars) {
            Err((at, fault)) => return Err((to_bytes(text, at), fault)),
            Ok(None) => return Ok(text.to_owned()),
            Ok(Some(found)) => found,
        };
        let n = chars.len();
        let before = crate::text::slice_of(&chars, 0, whole.0);
        let after = crate::text::slice_of(&chars, whole.1, n);
        if trimmed(&after).len() == 0 {
            let kept = trimmed_end(&before);
            let mut out: Vec<char> = Vec::new();
            if kept.len() > 0 {
                crate::text::extend(&mut out, &kept);
                crate::text::extend(&mut out, &newline(&chars));
            }
            return Ok(string_of(&out));
        }
        let nn = ['\n', '\n'];
        let crlf2 = ['\r', '\n', '\r', '\n'];
        let cr = ['\r', '\n'];
        let lf = ['\n'];
        assert(nn@ == seq!['\n', '\n']);
        assert(crlf2@ == seq!['\r', '\n', '\r', '\n']);
        assert(cr@ == seq!['\r', '\n']);
        assert(lf@ == seq!['\n']);
        let mut out = before.clone();
        assert(out@ == before@);
        if crate::text::ends_with(&before, &nn) || crate::text::ends_with(&before, &crlf2) {
            let skip = if crate::text::starts_with(&after, &cr) {
                2
            } else if crate::text::starts_with(&after, &lf) {
                1
            } else {
                0
            };
            let tail = crate::text::slice_of(&after, skip, after.len());
            assert(tail@ == after@.skip(skip as int));
            assert(after@.skip(0) == after@);
            crate::text::extend(&mut out, &tail);
        } else {
            crate::text::extend(&mut out, &after);
        }
        Ok(string_of(&out))
    }

    /// `text` with the block holding `content`: in place, or appended after a blank line; in
    /// the file's line endings.
    pub fn splice(&self, text: &str, content: &str) -> (r: Result<String, ((usize, usize), Fault)>)
        ensures
            match r {
                Ok(out) => spliced(text@, content@, self.open_spec(), self.close_spec()) == Ok::<_, ((int, int), Fault)>(out@),
                Err((at, fault)) => exists|a: (int, int)| spliced(text@, content@, self.open_spec(), self.close_spec()) == Err::<Seq<char>, _>((a, fault))
                    && span(at) == byte_span(text@, a),
            },
    {
        let chars = chars_of(text);
        let nl = newline(&chars);
        let cr = ['\r', '\n'];
        let lf = ['\n'];
        assert(cr@ == seq!['\r', '\n']);
        assert(lf@ == seq!['\n']);
        let once = replaced(&chars_of(content), &cr, &lf);
        let mut body = if has_crlf(&chars) {
            replaced(&once, &lf, &cr)
        } else {
            once
        };
        if body.len() > 0 && body[body.len() - 1] != '\n' {
            crate::text::extend(&mut body, &nl);
        }
        assert(body@ == body_of(text@, content@));
        match self.locate(&chars) {
            Err((at, fault)) => Err((to_bytes(text, at), fault)),
            Ok(Some((_, lines))) => {
                let mut out = crate::text::slice_of(&chars, 0, lines.0);
                crate::text::extend(&mut out, &body);
                crate::text::extend(&mut out, &crate::text::slice_of(&chars, lines.1, chars.len()));
                Ok(string_of(&out))
            },
            Ok(None) => {
                let mut out = chars.clone();
                assert(out@ == text@);
                if out.len() > 0 && out[out.len() - 1] != '\n' {
                    crate::text::extend(&mut out, &nl);
                }
                if trimmed(&out).len() > 0 {
                    crate::text::extend(&mut out, &nl);
                }
                crate::text::extend(&mut out, &chars_of(self.open.as_str()));
                crate::text::extend(&mut out, &nl);
                crate::text::extend(&mut out, &body);
                crate::text::extend(&mut out, &chars_of(self.close.as_str()));
                crate::text::extend(&mut out, &nl);
                Ok(string_of(&out))
            },
        }
    }
}

} // verus!
