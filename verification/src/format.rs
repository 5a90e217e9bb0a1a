//! Post-merge validation of structured files.

use vstd::prelude::*;

use jsonc_parser::tokens::Token;
use jsonc_parser::{CollectOptions, ParseOptions, parse_to_ast};
use vstd::utf8::{decode_utf8, valid_utf8};

use crate::digest::{bom, strip_bom};
use crate::path::{RelPath, extension_of, file_name_of};
use crate::text::{cat, chars_of, decimal, ends, ends_with, same, starts};

verus! {

/// How a file is checked after a merge: it must parse, with no duplicate keys.
#[derive(Clone, Copy, Debug, PartialEq, Eq, Structural)]
pub enum Format {
    /// TOML.
    Toml,
    /// JSON with comments and trailing commas (JSONC), a superset of JSON.
    Json,
    /// YAML.
    Yaml,
    /// Not checked.
    Unchecked,
}

/// The format a path with file name `name` implies: lockfiles TOML whatever their extension,
/// else by extension.
pub open spec fn format_of(name: Seq<char>) -> Format {
    if name == "Cargo.lock"@ || name == "mise.lock"@ || ends(name, ".mise.lock"@) {
        Format::Toml
    } else {
        match extension_of(name) {
            Some(ext) => if ext == "toml"@ {
                Format::Toml
            } else if ext == "json"@ || ext == "jsonc"@ {
                Format::Json
            } else if ext == "yaml"@ || ext == "yml"@ {
                Format::Yaml
            } else {
                Format::Unchecked
            },
            None => Format::Unchecked,
        }
    }
}

/// Whether `s` holds the characters of `lit`.
pub fn is(s: &[char], lit: &str) -> (r: bool)
    ensures
        r == (s@ == lit@),
{
    same(s, &chars_of(lit))
}

impl Format {
    /// The format `path`'s extension implies.
    pub fn of(path: &RelPath) -> (f: Format)
        ensures
            f == format_of(file_name_of(path@)),
    {
        let name = chars_of(path.file_name().as_str());
        if is(&name, "Cargo.lock") || is(&name, "mise.lock") || ends_with(&name, &chars_of(".mise.lock")) {
            return Format::Toml;
        }
        match path.extension() {
            Some(ext) => {
                let ext = chars_of(ext.as_str());
                if is(&ext, "toml") {
                    Format::Toml
                } else if is(&ext, "json") || is(&ext, "jsonc") {
                    Format::Json
                } else if is(&ext, "yaml") || is(&ext, "yml") {
                    Format::Yaml
                } else {
                    Format::Unchecked
                }
            },
            None => Format::Unchecked,
        }
    }
}

/// How many newline bytes are in `s`.
pub open spec fn newlines(s: Seq<u8>) -> int
    decreases s.len(),
{
    if s.len() == 0 {
        0
    } else {
        newlines(s.drop_last()) + if s.last() == 0x0au8 {
            1int
        } else {
            0int
        }
    }
}

/// Whether byte `offset` of `text`, UTF-8, begins a character or ends the text.
pub open spec fn boundary(text: Seq<u8>, offset: int) -> bool {
    offset == 0 || offset == text.len() || (0 < offset < text.len() && !(0x80 <= text[offset]
        && text[offset] <= 0xbf))
}

/// The 1-based line of byte `offset` in `text`: one more than the newlines before it, or in
/// all of `text` when `offset` is past it or inside a character.
pub open spec fn line_of(text: Seq<u8>, offset: int) -> int {
    newlines(
        if 0 <= offset <= text.len() && boundary(text, offset) {
            text.take(offset)
        } else {
            text
        },
    ) + 1
}

/// `line_of(text, offset)`, at most `usize::MAX`.
pub open spec fn line_number(text: Seq<u8>, offset: int) -> int {
    if line_of(text, offset) <= usize::MAX {
        line_of(text, offset)
    } else {
        usize::MAX as int
    }
}

/// The 1-based line of byte `offset` in `text`.
pub fn line_at(text: &[u8], offset: usize) -> (line: usize)
    ensures
        line == line_number(text@, offset as int),
{
    let n = text.len();
    let end = if offset <= n && (offset == 0 || offset == n || !(0x80u8 <= text[offset] && text[offset] <= 0xbfu8)) {
        offset
    } else {
        n
    };
    assert(text@.take(n as int) == text@);
    let mut count: usize = 0;
    let mut i: usize = 0;
    while i < end
        invariant
            i <= end <= text@.len(),
            count == newlines(text@.take(i as int)),
            count <= i,
        decreases end - i,
    {
        if text[i] == 0x0au8 {
            count += 1;
        }
        i += 1;
        assert(text@.take(i as int).drop_last() == text@.take(i - 1));
    }
    count.saturating_add(1)
}

/// `bytes` without a leading byte order mark.
pub fn without_bom(bytes: &[u8]) -> (out: &[u8])
    ensures
        out@ == strip_bom(bytes@),
{
    if bytes.len() >= 3 && bytes[0] == 0xefu8 && bytes[1] == 0xbbu8 && bytes[2] == 0xbfu8 {
        assert(bytes@.take(3) =~= bom());
        crate::text::tail(bytes, 3)
    } else {
        proof {
            if bytes@.len() >= 3 {
                assert(bytes@.take(3)[0] == bytes@[0]);
            }
        }
        bytes
    }
}

/// What `str`'s `Utf8Error` says of `bytes`, which are not UTF-8.
pub uninterp spec fn utf8_error(bytes: Seq<u8>) -> Seq<char>;

/// `bytes` as text, `std::str::from_utf8`: the characters they encode when they are UTF-8, else
/// the error's message.
#[verifier::external_body]
pub(crate) fn decode(bytes: &[u8]) -> (r: Result<&str, String>)
    ensures
        match r {
            Ok(text) => valid_utf8(bytes@) && text@ == decode_utf8(bytes@),
            Err(message) => !valid_utf8(bytes@) && message@ == utf8_error(bytes@),
        },
{
    std::str::from_utf8(bytes).map_err(|e| e.to_string())
}

/// What `toml` says of `text` read as a TOML document, `toml::from_str` into anything: `None`
/// when it parses; else the error's message, and where the fault begins in bytes when it says.
pub uninterp spec fn toml_fault(text: Seq<char>) -> Option<(Seq<char>, Option<usize>)>;

/// `text` parsed as TOML, `toml::from_str`; its error's message and the start of its span.
#[verifier::external_body]
fn parse_toml(text: &str) -> (r: Option<(String, Option<usize>)>)
    ensures
        match r {
            None => toml_fault(text@) is None,
            Some((message, at)) => toml_fault(text@) == Some((message@, at)),
        },
{
    match toml::from_str::<serde::de::IgnoredAny>(text) {
        Ok(_) => None,
        Err(e) => Some((e.message().to_owned(), e.span().map(|span| span.start))),
    }
}

/// Why `serde_saphyr` refuses a YAML stream.
pub enum YamlFault {
    /// A mapping holds a key twice: the key, when it reads as text, and its line.
    Duplicate {
        /// The key.
        key: Option<String>,
        /// Its 1-based line.
        line: u64,
    },
    /// Anything else, as the error says it.
    Other(String),
}

/// A YAML fault, as values.
pub open spec fn yaml_view(f: Option<YamlFault>) -> Option<Result<(Option<Seq<char>>, u64), Seq<char>>> {
    match f {
        None => None,
        Some(YamlFault::Duplicate { key, line }) => Some(Ok((match key {
            Some(k) => Some(k@),
            None => None,
        }, line))),
        Some(YamlFault::Other(m)) => Some(Err(m@)),
    }
}

/// What `serde_saphyr` says of `text` read as a stream of YAML documents, each into anything:
/// `None` when all parse; a duplicate key with its line; or the message of any other error.
pub uninterp spec fn yaml_fault(text: Seq<char>) -> Option<Result<(Option<Seq<char>>, u64), Seq<char>>>;

/// `text` parsed as YAML documents, `serde_saphyr::from_multiple`, its error without a snippet.
#[verifier::external_body]
fn parse_yaml(text: &str) -> (r: Option<YamlFault>)
    ensures
        yaml_view(r) == yaml_fault(text@),
{
    match serde_saphyr::from_multiple::<serde::de::IgnoredAny>(text) {
        Ok(_) => None,
        Err(e) => match e.without_snippet() {
            serde_saphyr::Error::DuplicateMappingKey { key, location } => {
                Some(YamlFault::Duplicate { key: key.clone(), line: location.line() })
            },
            other => Some(YamlFault::Other(other.to_string())),
        },
    }
}

/// A JSON token, as far as keys are concerned.
#[derive(Debug, PartialEq, Eq)]
pub enum JsonToken {
    /// `{`.
    Object,
    /// `[`.
    Array,
    /// `}` or `]`.
    Close,
    /// `:`.
    Colon,
    /// A string, unescaped.
    Str(String),
    /// Anything else: `,`, a number, `true`, `false`, `null`.
    Other,
}

/// A token, as values.
pub open spec fn token_view(t: JsonToken) -> (int, Seq<char>) {
    match t {
        JsonToken::Object => (0, Seq::empty()),
        JsonToken::Array => (1, Seq::empty()),
        JsonToken::Close => (2, Seq::empty()),
        JsonToken::Colon => (3, Seq::empty()),
        JsonToken::Str(s) => (4, s@),
        JsonToken::Other => (5, Seq::empty()),
    }
}

/// Tokens and where each begins, as values.
pub open spec fn tokens_view(r: Result<Vec<(JsonToken, usize)>, String>) -> Result<Seq<((int, Seq<char>), usize)>, Seq<char>> {
    match r {
        Ok(v) => Ok(v@.map_values(|t: (JsonToken, usize)| (token_view(t.0), t.1))),
        Err(m) => Err(m@),
    }
}

/// How loosely JSON is read: the options `jsonc_parser` takes.
#[derive(Clone, Copy, Debug, PartialEq, Eq, Structural)]
pub struct JsonDialect {
    /// Comments.
    pub allow_comments: bool,
    /// A comma after the last element.
    pub allow_trailing_commas: bool,
    /// Words and numbers as property names.
    pub allow_loose_object_property_names: bool,
    /// No comma between elements.
    pub allow_missing_commas: bool,
    /// Strings in single quotes.
    pub allow_single_quoted_strings: bool,
    /// Numbers like `0xFF`.
    pub allow_hexadecimal_numbers: bool,
    /// Numbers like `+1`.
    pub allow_unary_plus_numbers: bool,
    /// Numbers like `.5` or `5.`.
    pub allow_bare_decimal_point_numbers: bool,
    /// Escapes JSON does not define.
    pub allow_extended_string_escapes: bool,
    /// `NaN` and `Infinity`.
    pub allow_non_finite_numbers: bool,
}

/// JSON as devset reads it: comments and trailing commas allowed, as in JSONC, and nothing
/// looser.
pub open spec fn jsonc_spec() -> JsonDialect {
    JsonDialect {
        allow_comments: true,
        allow_trailing_commas: true,
        allow_loose_object_property_names: false,
        allow_missing_commas: false,
        allow_single_quoted_strings: false,
        allow_hexadecimal_numbers: false,
        allow_unary_plus_numbers: false,
        allow_bare_decimal_point_numbers: false,
        allow_extended_string_escapes: false,
        allow_non_finite_numbers: false,
    }
}

/// JSON as devset reads it.
pub fn jsonc() -> (d: JsonDialect)
    ensures
        d == jsonc_spec(),
{
    JsonDialect {
        allow_comments: true,
        allow_trailing_commas: true,
        allow_loose_object_property_names: false,
        allow_missing_commas: false,
        allow_single_quoted_strings: false,
        allow_hexadecimal_numbers: false,
        allow_unary_plus_numbers: false,
        allow_bare_decimal_point_numbers: false,
        allow_extended_string_escapes: false,
        allow_non_finite_numbers: false,
    }
}

/// What `jsonc_parser` says of `text` read in `dialect`: its tokens, comments left out, each
/// with the byte it begins at; or the error's message.
pub uninterp spec fn jsonc_tokens(text: Seq<char>, dialect: JsonDialect) -> Result<Seq<((int, Seq<char>), usize)>, Seq<char>>;

/// `text` parsed by `jsonc_parser::parse_to_ast` in `d`, its tokens collected.
#[verifier::external_body]
fn scan_json(text: &str, d: JsonDialect) -> (r: Result<Vec<(JsonToken, usize)>, String>)
    ensures
        tokens_view(r) == jsonc_tokens(text@, d),
{
    let JsonDialect { allow_comments, allow_trailing_commas, allow_loose_object_property_names, allow_missing_commas, allow_single_quoted_strings, allow_hexadecimal_numbers, allow_unary_plus_numbers, allow_bare_decimal_point_numbers, allow_extended_string_escapes, allow_non_finite_numbers } = d;
    let parsed = parse_to_ast(text, &CollectOptions { tokens: true, ..Default::default() }, &ParseOptions { allow_comments, allow_trailing_commas, allow_loose_object_property_names, allow_missing_commas, allow_single_quoted_strings, allow_hexadecimal_numbers, allow_unary_plus_numbers, allow_bare_decimal_point_numbers, allow_extended_string_escapes, allow_non_finite_numbers })
        .map_err(|e| e.to_string())?;
    Ok(parsed.tokens.unwrap_or_default().iter().map(|t| (match &t.token {
        Token::OpenBrace => JsonToken::Object,
        Token::OpenBracket => JsonToken::Array,
        Token::CloseBrace | Token::CloseBracket => JsonToken::Close,
        Token::Colon => JsonToken::Colon,
        Token::String(s) => JsonToken::Str(s.to_string()),
        _ => JsonToken::Other,
    }, t.range.start)).collect())
}

/// A stack of open containers, as values: each object with the keys met in it so far; `None`
/// for an array.
pub type Frames = Seq<Option<Seq<Seq<char>>>>;

/// Reading `tokens` from `k` on with `open` the containers still open: the first key that
/// repeats a key met before in its own object, with the byte it begins at. A key is a string
/// followed by `:` inside an object.
pub open spec fn duplicate_from(tokens: Seq<((int, Seq<char>), usize)>, k: int, open: Frames) -> Option<(Seq<char>, usize)>
    decreases tokens.len() - k,
{
    if k < 0 || k >= tokens.len() {
        None
    } else {
        let (kind, text) = tokens[k].0;
        if kind == 0 {
            duplicate_from(tokens, k + 1, open.push(Some(Seq::empty())))
        } else if kind == 1 {
            duplicate_from(tokens, k + 1, open.push(None))
        } else if kind == 2 {
            duplicate_from(tokens, k + 1, if open.len() > 0 {
                open.drop_last()
            } else {
                open
            })
        } else if kind == 4 && k + 1 < tokens.len() && tokens[k + 1].0.0 == 3 && open.len() > 0
            && open.last() is Some {
            if open.last()->0.contains(text) {
                Some((text, tokens[k].1))
            } else {
                duplicate_from(tokens, k + 1, open.update(open.len() - 1, Some(open.last()->0.push(text))))
            }
        } else {
            duplicate_from(tokens, k + 1, open)
        }
    }
}

/// The frames of `stack`, as values.
pub open spec fn frames_view(stack: Seq<Option<Vec<String>>>) -> Frames {
    stack.map_values(|f: Option<Vec<String>>| match f {
        Some(v) => Some(crate::text::views(v@)),
        None => None,
    })
}

/// Whether `keys` holds `key`.
fn holds(keys: &Vec<String>, key: &String) -> (r: bool)
    ensures
        r == crate::text::views(keys@).contains(key@),
{
    let mut i: usize = 0;
    while i < keys.len()
        invariant
            i <= keys@.len(),
            forall|j: int| 0 <= j < i ==> keys@[j]@ != key@,
        decreases keys@.len() - i,
    {
        if keys[i] == *key {
            assert(crate::text::views(keys@)[i as int] == key@);
            return true;
        }
        i += 1;
    }
    proof {
        if crate::text::views(keys@).contains(key@) {
            let j = choose|j: int| 0 <= j < keys@.len() && crate::text::views(keys@)[j] == key@;
            assert(keys@[j]@ == key@);
        }
    }
    false
}

/// The first key of `tokens` that repeats a key of its own object, and the byte it begins at.
pub fn first_duplicate(tokens: &Vec<(JsonToken, usize)>) -> (r: Option<(String, usize)>)
    ensures
        match r {
            Some((key, at)) => duplicate_from(tokens_seq(tokens@), 0, Seq::empty()) == Some((key@, at)),
            None => duplicate_from(tokens_seq(tokens@), 0, Seq::empty()) is None,
        },
{
    let ghost t = tokens_seq(tokens@);
    let mut open: Vec<Option<Vec<String>>> = Vec::new();
    let mut k: usize = 0;
    assert(frames_view(open@) =~= Seq::empty());
    while k < tokens.len()
        invariant
            k <= tokens@.len(),
            t == tokens_seq(tokens@),
            duplicate_from(t, 0, Seq::empty()) == duplicate_from(t, k as int, frames_view(open@)),
        decreases tokens@.len() - k,
    {
        let ghost before = frames_view(open@);
        assert(t[k as int] == (token_view(tokens@[k as int].0), tokens@[k as int].1));
        match &tokens[k].0 {
            JsonToken::Object => {
                let fresh: Vec<String> = Vec::new();
                assert(crate::text::views(fresh@) =~= Seq::empty());
                open.push(Some(fresh));
                assert(frames_view(open@) =~= before.push(Some(Seq::empty())));
            },
            JsonToken::Array => {
                open.push(None);
                assert(frames_view(open@) =~= before.push(None));
            },
            JsonToken::Close => {
                if open.len() > 0 {
                    open.pop();
                    assert(frames_view(open@) =~= before.drop_last());
                }
            },
            JsonToken::Str(key) => {
                let colon = k + 1 < tokens.len() && matches!(tokens[k + 1].0, JsonToken::Colon);
                proof {
                    if k + 1 < tokens@.len() {
                        assert(t[k + 1] == (token_view(tokens@[k + 1].0), tokens@[k + 1].1));
                    }
                }
                let n = open.len();
                if colon && n > 0 {
                    match open.pop() {
                        Some(Some(mut keys)) => {
                            assert(before.last() == Some(crate::text::views(keys@)));
                            if holds(&keys, key) {
                                return Some((key.clone(), tokens[k].1));
                            }
                            let ghost kv = crate::text::views(keys@);
                            keys.push(key.clone());
                            assert(crate::text::views(keys@) =~= kv.push(key@));
                            open.push(Some(keys));
                            assert(frames_view(open@) =~= before.update(before.len() - 1, Some(kv.push(key@))));
                        },
                        Some(None) => {
                            open.push(None);
                            assert(frames_view(open@) =~= before);
                        },
                        None => {},
                    }
                }
            },
            _ => {},
        }
        k += 1;
    }
    None
}

/// The tokens of `v`, as values.
pub open spec fn tokens_seq(v: Seq<(JsonToken, usize)>) -> Seq<((int, Seq<char>), usize)> {
    v.map_values(|t: (JsonToken, usize)| (token_view(t.0), t.1))
}

/// `error: `, which `serde_saphyr` puts before its messages.
pub open spec fn error_prefix() -> Seq<char> {
    seq!['e', 'r', 'r', 'o', 'r', ':', ' ']
}

/// `message` without a leading `error: `.
pub open spec fn unprefixed(message: Seq<char>) -> Seq<char> {
    if starts(message, error_prefix()) {
        message.skip(7)
    } else {
        message
    }
}

/// How the TOML check of `text`, whose bytes are `b`, ends.
pub open spec fn toml_verdict(b: Seq<u8>, text: Seq<char>) -> Result<(), Seq<char>> {
    match toml_fault(text) {
        None => Ok(()),
        Some((m, None)) => Err(m),
        Some((m, Some(at))) => Err(m + " at line "@ + decimal(line_number(b, at as int) as nat)),
    }
}

/// How the YAML check of `text` ends: a duplicate key in the words the other formats use.
pub open spec fn yaml_verdict(text: Seq<char>) -> Result<(), Seq<char>> {
    match yaml_fault(text) {
        None => Ok(()),
        Some(Ok((key, line))) => Err("duplicate key"@ + match key {
            Some(k) => " `"@ + k + "`"@,
            None => Seq::empty(),
        } + " at line "@ + decimal(line as nat)),
        Some(Err(m)) => Err(unprefixed(m)),
    }
}

/// How the JSON check of `text`, whose bytes are `b`, ends.
pub open spec fn json_verdict(b: Seq<u8>, text: Seq<char>) -> Result<(), Seq<char>> {
    match jsonc_tokens(text, jsonc_spec()) {
        Err(m) => Err(m),
        Ok(tokens) => match duplicate_from(tokens, 0, Seq::empty()) {
            None => Ok(()),
            Some((k, at)) => Err("duplicate key `"@ + k + "` at line "@ + decimal(line_number(b, at as int) as nat)),
        },
    }
}

/// How checking `bytes` as `format` ends: a byte order mark is allowed, and the rest must be
/// UTF-8 that parses, with no duplicate key at any depth.
pub open spec fn check_spec(format: Format, bytes: Seq<u8>) -> Result<(), Seq<char>> {
    let b = strip_bom(bytes);
    if format == Format::Unchecked {
        Ok(())
    } else if !valid_utf8(b) {
        Err(utf8_error(b))
    } else {
        let text = decode_utf8(b);
        match format {
            Format::Toml => toml_verdict(b, text),
            Format::Yaml => yaml_verdict(text),
            Format::Json => json_verdict(b, text),
            Format::Unchecked => Ok(()),
        }
    }
}

/// `message` without a leading `error: `.
fn strip_error(message: String) -> (out: String)
    ensures
        out@ == unprefixed(message@),
{
    let chars = chars_of(message.as_str());
    let prefix = chars_of("error: ");
    proof {
        reveal_strlit("error: ");
    }
    assert(prefix@ =~= error_prefix());
    if crate::text::starts_with(&chars, &prefix) {
        crate::text::string_of(&crate::text::slice_of(&chars, 7, chars.len()))
    } else {
        message
    }
}

impl Format {
    /// Checks that `bytes` parse, with no duplicate key at any depth.
    ///
    /// A UTF-8 BOM is allowed, and YAML may hold several documents. Fails with the parser's
    /// message, or the first duplicate key, located by line.
    pub fn check(self, bytes: &[u8]) -> (r: Result<(), String>)
        ensures
            match r {
                Ok(()) => check_spec(self, bytes@) is Ok,
                Err(m) => check_spec(self, bytes@) == Err::<(), Seq<char>>(m@),
            },
    {
        let b = without_bom(bytes);
        if self == Format::Unchecked {
            return Ok(());
        }
        let text = match decode(b) {
            Ok(text) => text,
            Err(m) => return Err(m),
        };
        match self {
            Format::Toml => match parse_toml(text) {
                None => Ok(()),
                Some((m, None)) => Err(m),
                Some((m, Some(at))) => {
                    let out = cat(m.as_str(), " at line ");
                    Err(cat(out.as_str(), crate::text::decimal_of(line_at(b, at)).as_str()))
                },
            },
            Format::Yaml => match parse_yaml(text) {
                None => Ok(()),
                Some(YamlFault::Duplicate { key, line }) => {
                    let out = match key {
                        Some(k) => {
                            let quoted = cat(" `", k.as_str());
                            let quoted = cat(quoted.as_str(), "`");
                            cat("duplicate key", quoted.as_str())
                        },
                        None => {
                            let out = "duplicate key".to_owned();
                            assert(out@ =~= "duplicate key"@ + Seq::empty());
                            out
                        },
                    };
                    let out = cat(out.as_str(), " at line ");
                    Err(cat(out.as_str(), crate::text::decimal_of_u64(line).as_str()))
                },
                Some(YamlFault::Other(m)) => Err(strip_error(m)),
            },
            Format::Json => match scan_json(text, jsonc()) {
                Err(m) => Err(m),
                Ok(tokens) => {
                    assert(tokens_view(Ok::<Vec<(JsonToken, usize)>, String>(tokens)) == Ok::<_, Seq<char>>(tokens_seq(tokens@)));
                    match first_duplicate(&tokens) {
                        None => Ok(()),
                        Some((k, at)) => {
                            let out = cat("duplicate key `", k.as_str());
                            let out = cat(out.as_str(), "` at line ");
                            Err(cat(out.as_str(), crate::text::decimal_of(line_at(b, at)).as_str()))
                        },
                    }
                },
            },
            Format::Unchecked => Ok(()),
        }
    }
}

} // verus!
