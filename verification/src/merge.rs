//! Three-way merges, built in or through a configured [`Driver`].

use vstd::prelude::*;

use crate::digest::{binary, is_binary};
use crate::text::{cat, chars_of, extend, string_of};

verus! {

/// What `shlex::split` gives `line`: its words, split as a POSIX shell splits them; `None` when
/// its quotes do not balance.
pub uninterp spec fn shell_words(line: Seq<char>) -> Option<Seq<Seq<char>>>;

/// `line` split as a POSIX shell would; no shell ever runs it.
#[verifier::external_body]
fn split_words(line: &str) -> (r: Option<Vec<String>>)
    ensures
        match r {
            Some(words) => shell_words(line@) == Some(words@.map_values(|w: String| w@)),
            None => shell_words(line@) is None,
        },
{
    shlex::split(line)
}

/// What `diffy::merge_bytes` gives: the line merge of `ours` and `theirs` from `base`; `Err`
/// holds the merge with conflict markers.
pub uninterp spec fn line_merge(base: Seq<u8>, ours: Seq<u8>, theirs: Seq<u8>) -> Result<
    Seq<u8>,
    Seq<u8>,
>;

/// The line merge of `ours` and `theirs` from `base`.
#[verifier::external_body]
fn merge_lines(base: &[u8], ours: &[u8], theirs: &[u8]) -> (r: Result<Vec<u8>, Vec<u8>>)
    ensures
        match r {
            Ok(bytes) => line_merge(base@, ours@, theirs@) == Ok::<Seq<u8>, Seq<u8>>(bytes@),
            Err(bytes) => line_merge(base@, ours@, theirs@) == Err::<Seq<u8>, Seq<u8>>(bytes@),
        },
{
    diffy::merge_bytes(base, ours, theirs)
}

/// Why a `driver` line is not one.
#[derive(Clone, Copy, Debug, PartialEq, Eq, Structural)]
pub enum DriverFault {
    /// Its quotes do not balance.
    Quotes,
    /// It names no program.
    Empty,
    /// A `%` is followed by something other than `O`, `A`, `B`, `P` or `%`.
    Placeholder,
    /// It never names `%A`, where the result is left.
    NoResult,
}

impl DriverFault {
    /// Why, as messages say it.
    pub open spec fn text(self) -> Seq<char> {
        match self {
            DriverFault::Quotes => "unbalanced quotes"@,
            DriverFault::Empty => "empty"@,
            DriverFault::Placeholder => "placeholders are %O, %A, %B, %P and %%"@,
            DriverFault::NoResult => "must name %A, where the merged result is left"@,
        }
    }

    /// Why, as messages say it.
    pub fn message(self) -> (r: &'static str)
        ensures
            r@ == self.text(),
    {
        match self {
            DriverFault::Quotes => "unbalanced quotes",
            DriverFault::Empty => "empty",
            DriverFault::Placeholder => "placeholders are %O, %A, %B, %P and %%",
            DriverFault::NoResult => "must name %A, where the merged result is left",
        }
    }
}

/// How three-way merges are performed; written as its `driver` line.
#[derive(Debug, PartialEq, Eq)]
pub enum Driver {
    /// A line merge, `diffy`'s.
    Builtin,
    /// A program, on git's merge-driver convention.
    ///
    /// `%O` is the ancestor, `%A` the local version and where the result is left, `%B` the
    /// incoming version, `%P` the path; `%%` is `%`. Exit zero means merged cleanly.
    Command {
        /// As configured.
        line: String,
        /// `line` split into arguments, placeholders intact.
        args: Vec<String>,
    },
}

/// A driver, as values: `None` for the built-in merge, else its line and its arguments.
impl View for Driver {
    type V = Option<(Seq<char>, Seq<Seq<char>>)>;

    open spec fn view(&self) -> Self::V {
        match self {
            Driver::Builtin => None,
            Driver::Command { line, args } => Some((line@, args@.map_values(|a: String| a@))),
        }
    }
}

impl Clone for Driver {
    fn clone(&self) -> (out: Self)
        ensures
            out@ == self@,
    {
        match self {
            Driver::Builtin => Driver::Builtin,
            Driver::Command { line, args } => Driver::Command {
                line: line.clone(),
                args: crate::text::copy_strings(args),
            },
        }
    }
}

/// Whether every `%` of `arg`, from `at` on, begins a placeholder: `%O`, `%A`, `%B`, `%P`, `%%`.
pub open spec fn placeholders_from(arg: Seq<char>, at: int) -> bool
    decreases arg.len() - at,
{
    if at < 0 || at >= arg.len() {
        true
    } else if arg[at] != '%' {
        placeholders_from(arg, at + 1)
    } else {
        at + 1 < arg.len() && (arg[at + 1] == 'O' || arg[at + 1] == 'A' || arg[at + 1] == 'B'
            || arg[at + 1] == 'P' || arg[at + 1] == '%') && placeholders_from(arg, at + 2)
    }
}

/// Whether `arg`, from `at` on, holds the placeholder `%A`: a `%` that no `%` escapes, then `A`.
/// A `%%` pair is a literal `%`, so the `A` after it names nothing.
pub open spec fn names_result_from(arg: Seq<char>, at: int) -> bool
    decreases arg.len() + 1 - at,
{
    if at < 0 || at >= arg.len() {
        false
    } else if arg[at] != '%' {
        names_result_from(arg, at + 1)
    } else if at + 1 < arg.len() && arg[at + 1] == 'A' {
        true
    } else {
        names_result_from(arg, at + 2)
    }
}

/// Whether `arg` holds the placeholder `%A`, where the merged result is left.
pub open spec fn names_result(arg: Seq<char>) -> bool {
    names_result_from(arg, 0)
}

/// The driver `line` names, or why it names none.
pub open spec fn driver_words(line: Seq<char>) -> Result<Seq<Seq<char>>, DriverFault> {
    match shell_words(line) {
        None => Err(DriverFault::Quotes),
        Some(args) => if args.len() == 0 {
            Err(DriverFault::Empty)
        } else if exists|i: int| 0 <= i < args.len() && !placeholders_from(#[trigger] args[i], 0) {
            Err(DriverFault::Placeholder)
        } else if !exists|i: int| 0 <= i < args.len() && names_result(#[trigger] args[i]) {
            Err(DriverFault::NoResult)
        } else {
            Ok(args)
        },
    }
}

/// Whether every `%` of `arg` begins a placeholder.
fn placeholders_ok(arg: &[char]) -> (r: bool)
    ensures
        r == placeholders_from(arg@, 0),
{
    let n = arg.len();
    let mut i: usize = 0;
    while i < n
        invariant
            i <= n,
            n == arg@.len(),
            placeholders_from(arg@, i as int) == placeholders_from(arg@, 0),
        decreases n - i,
    {
        if arg[i] != '%' {
            i += 1;
        } else {
            if i + 1 >= n {
                return false;
            }
            let next = arg[i + 1];
            if !(next == 'O' || next == 'A' || next == 'B' || next == 'P' || next == '%') {
                return false;
            }
            i += 2;
        }
    }
    true
}

/// Whether `arg` holds `%A`.
fn holds_result(arg: &[char]) -> (r: bool)
    ensures
        r == names_result(arg@),
{
    let n = arg.len();
    let mut i: usize = 0;
    while i < n
        invariant
            i <= n,
            n == arg@.len(),
            names_result_from(arg@, i as int) == names_result_from(arg@, 0),
        decreases n - i,
    {
        if arg[i] != '%' {
            i += 1;
        } else if i + 1 >= n {
            assert(!names_result_from(arg@, i + 2));
            assert(!names_result_from(arg@, i as int));
            assert(!names_result_from(arg@, n as int));
            i = n;
        } else if arg[i + 1] == 'A' {
            return true;
        } else {
            i += 2;
        }
    }
    false
}

/// Why merging through a driver failed.
#[derive(Clone, Debug, PartialEq, Eq)]
pub enum MergeError {
    /// A `driver` line is not valid.
    Driver {
        /// The line.
        line: String,
        /// Why.
        reason: DriverFault,
    },
    /// A driver's program is not installed.
    NoDriver {
        /// The program.
        program: String,
    },
    /// A driver program did not run to completion.
    Run {
        /// The program.
        program: String,
        /// Why it stopped.
        reason: String,
    },
    /// Conflicts wait in `.devset/conflicts/`.
    Unresolved {
        /// Each conflicted path.
        paths: Vec<crate::path::RelPath>,
    },
    /// Resolutions were to be installed, and no conflict waits.
    NothingToContinue,
    /// An update was to be taken back, and none is unfinished.
    NothingToAbort,
    /// Taking an update back would discard changes made since it.
    ChangedSince {
        /// Each changed file, relative to the target root.
        paths: Vec<String>,
    },
    /// A copy an update saved, to take it back, is missing or damaged.
    CorruptUndo {
        /// The file it would restore, relative to the target root.
        path: String,
    },
    /// A resolution still has conflict markers.
    Unmerged {
        /// The conflicted path.
        path: crate::path::RelPath,
    },
    /// A resolution does not pass its file's check.
    Invalid {
        /// The conflicted path.
        path: crate::path::RelPath,
        /// Why the check failed.
        reason: String,
    },
}

/// The error a `driver` line gives for `reason`.
fn driver_error(line: &str, reason: DriverFault) -> (e: MergeError)
    ensures
        e matches MergeError::Driver { line: written, reason: why } && written@ == line@ && why == reason,
{
    MergeError::Driver { line: line.to_owned(), reason }
}

impl Driver {
    /// The driver a `driver` line names, split as a POSIX shell would.
    ///
    /// Fails when quotes are unbalanced, it is empty, a placeholder is unknown, or `%A` is
    /// missing.
    pub fn parse(line: &str) -> (r: Result<Driver, MergeError>)
        ensures
            match r {
                Ok(Driver::Command { line: written, args }) => written@ == line@ && driver_words(line@)
                    == Ok::<_, DriverFault>(args@.map_values(|a: String| a@)),
                Ok(Driver::Builtin) => false,
                Err(MergeError::Driver { line: written, reason }) => written@ == line@ && driver_words(line@)
                    == Err::<Seq<Seq<char>>, _>(reason),
                Err(_) => false,
            },
    {
        let args = match split_words(line) {
            Some(args) => args,
            None => return Err(driver_error(line, DriverFault::Quotes)),
        };
        let ghost words = args@.map_values(|a: String| a@);
        if args.len() == 0 {
            return Err(driver_error(line, DriverFault::Empty));
        }
        let mut i: usize = 0;
        while i < args.len()
            invariant
                i <= args@.len(),
                words == args@.map_values(|a: String| a@),
                shell_words(line@) == Some(words),
                words.len() > 0,
                forall|j: int| 0 <= j < i ==> placeholders_from(#[trigger] words[j], 0),
            decreases args@.len() - i,
        {
            if !placeholders_ok(&chars_of(args[i].as_str())) {
                assert(!placeholders_from(words[i as int], 0));
                return Err(driver_error(line, DriverFault::Placeholder));
            }
            i += 1;
        }
        let mut k: usize = 0;
        while k < args.len()
            invariant
                k <= args@.len(),
                words == args@.map_values(|a: String| a@),
                shell_words(line@) == Some(words),
                words.len() > 0,
                forall|j: int| 0 <= j < words.len() ==> placeholders_from(#[trigger] words[j], 0),
                forall|j: int| 0 <= j < k ==> !names_result(#[trigger] words[j]),
            decreases args@.len() - k,
        {
            if holds_result(&chars_of(args[k].as_str())) {
                assert(names_result(words[k as int]));
                return Ok(Driver::Command { line: line.to_owned(), args });
            }
            k += 1;
        }
        Err(driver_error(line, DriverFault::NoResult))
    }

    /// The driver's line: `builtin`, or the command as configured.
    pub fn to_string(&self) -> (r: String)
        ensures
            r@ == match self {
                Driver::Builtin => "builtin"@,
                Driver::Command { line, .. } => line@,
            },
    {
        match self {
            Driver::Builtin => "builtin".to_owned(),
            Driver::Command { line, .. } => line.clone(),
        }
    }
}

/// `arg` from `at` on, with `%O %A %B %P` replaced by `o`, `a`, `b` and `p`, `%%` by `%`, any
/// other `%x` by `x`, and a final lone `%` dropped.
pub open spec fn expand_from(
    arg: Seq<char>,
    at: int,
    o: Seq<char>,
    a: Seq<char>,
    b: Seq<char>,
    p: Seq<char>,
) -> Seq<char>
    decreases arg.len() - at,
{
    if at < 0 || at >= arg.len() {
        Seq::empty()
    } else if arg[at] != '%' {
        seq![arg[at]] + expand_from(arg, at + 1, o, a, b, p)
    } else if at + 1 >= arg.len() {
        Seq::empty()
    } else {
        let next = arg[at + 1];
        (if next == 'O' {
            o
        } else if next == 'A' {
            a
        } else if next == 'B' {
            b
        } else if next == 'P' {
            p
        } else {
            seq![next]
        }) + expand_from(arg, at + 2, o, a, b, p)
    }
}

/// `arg` with `%O %A %B %P` replaced by `values`, in that order, and `%%` by `%`.
pub fn expand(arg: &str, values: [&str; 4]) -> (out: String)
    ensures
        out@ == expand_from(arg@, 0, values[0]@, values[1]@, values[2]@, values[3]@),
{
    let chars = chars_of(arg);
    let n = chars.len();
    let (o, a, b, p) = (chars_of(values[0]), chars_of(values[1]), chars_of(values[2]), chars_of(values[3]));
    let ghost whole = expand_from(arg@, 0, o@, a@, b@, p@);
    let mut out: Vec<char> = Vec::new();
    let mut i: usize = 0;
    while i < n
        invariant
            i <= n,
            n == chars@.len(),
            chars@ == arg@,
            out@ + expand_from(chars@, i as int, o@, a@, b@, p@) == whole,
        decreases n - i,
    {
        let c = chars[i];
        let ghost before = out@;
        if c != '%' {
            out.push(c);
            assert(out@ + expand_from(chars@, i + 1, o@, a@, b@, p@) == before + (seq![c] + expand_from(chars@, i + 1, o@, a@, b@, p@)));
            i += 1;
        } else if i + 1 >= n {
            assert(out@ + Seq::<char>::empty() == out@);
            i = n;
        } else {
            let next = chars[i + 1];
            let piece = if next == 'O' {
                o.clone()
            } else if next == 'A' {
                a.clone()
            } else if next == 'B' {
                b.clone()
            } else if next == 'P' {
                p.clone()
            } else {
                let mut one = Vec::new();
                one.push(next);
                one
            };
            extend(&mut out, &piece);
            assert(out@ + expand_from(chars@, i + 2, o@, a@, b@, p@) == before + (piece@ + expand_from(chars@, i + 2, o@, a@, b@, p@)));
            i += 2;
        }
    }
    assert(out@ + Seq::<char>::empty() == out@);
    string_of(&out)
}

/// The lines that open, separate or close a conflict hunk: `<<<<<<<`, `|||||||`, `>>>>>>>`.
///
/// `=======` is left out: it is also a Markdown heading underline.
pub open spec fn marker_line(line: Seq<u8>) -> bool {
    line.len() >= 7 && (forall|i: int| 0 <= i < 7 ==> #[trigger] line[i] == 0x3cu8) || line.len()
        >= 7 && (forall|i: int| 0 <= i < 7 ==> #[trigger] line[i] == 0x7cu8) || line.len() >= 7
        && (forall|i: int| 0 <= i < 7 ==> #[trigger] line[i] == 0x3eu8)
}

/// Whether `bytes` still hold a conflict hunk: a line that starts with a marker.
pub open spec fn marked(bytes: Seq<u8>) -> bool {
    exists|i: int|
        0 <= i < crate::text::split(bytes, 0x0au8).len() && marker_line(
            #[trigger] crate::text::split(bytes, 0x0au8)[i],
        )
}

/// Whether `line` starts with seven of `b`.
fn seven(line: &[u8], b: u8) -> (r: bool)
    ensures
        r == (line@.len() >= 7 && forall|i: int| 0 <= i < 7 ==> #[trigger] line@[i] == b),
{
    if line.len() < 7 {
        return false;
    }
    let mut i: usize = 0;
    while i < 7
        invariant
            i <= 7,
            line@.len() >= 7,
            forall|j: int| 0 <= j < i ==> line@[j] == b,
        decreases 7 - i,
    {
        if line[i] != b {
            return false;
        }
        i += 1;
    }
    true
}

/// Whether `bytes` still hold a conflict hunk.
pub fn has_markers(bytes: &[u8]) -> (r: bool)
    ensures
        r == marked(bytes@),
{
    let lines = crate::digest::split_bytes(bytes, 0x0a);
    let mut i: usize = 0;
    while i < lines.len()
        invariant
            i <= lines@.len(),
            lines@.len() == crate::text::split(bytes@, 0x0au8).len(),
            forall|k: int| 0 <= k < lines@.len() ==> #[trigger] lines@[k]@ == crate::text::split(bytes@, 0x0au8)[k],
            forall|k: int| 0 <= k < i ==> !marker_line(#[trigger] crate::text::split(bytes@, 0x0au8)[k]),
        decreases lines@.len() - i,
    {
        let line = &lines[i];
        if seven(line, 0x3c) || seven(line, 0x7c) || seven(line, 0x3e) {
            assert(marker_line(crate::text::split(bytes@, 0x0au8)[i as int]));
            return true;
        }
        i += 1;
    }
    false
}

/// A merge's result.
#[derive(Debug)]
pub struct Merged {
    /// The merged bytes, with conflict markers if not clean.
    pub bytes: Vec<u8>,
    /// Why the merge did not succeed; `None` when clean.
    pub conflict: Option<String>,
}

/// What the built-in merge gives: a binary side takes the profile's version, as a conflict;
/// otherwise the line merge, conflicted when it is `Err`.
pub open spec fn builtin_merge(base: Seq<u8>, ours: Seq<u8>, theirs: Seq<u8>) -> (Seq<u8>, Option<Seq<char>>) {
    if binary(base) || binary(ours) || binary(theirs) {
        (theirs, Some("binary: the sidecar holds the profile's version"@))
    } else {
        match line_merge(base, ours, theirs) {
            Ok(bytes) => (bytes, None),
            Err(bytes) => (bytes, Some("conflicting changes"@)),
        }
    }
}

/// The view of a merge's result.
pub open spec fn merged_view(m: Merged) -> (Seq<u8>, Option<Seq<char>>) {
    (m.bytes@, match m.conflict {
        Some(c) => Some(c@),
        None => None,
    })
}

/// Merges `ours` and `theirs` from `base` with the built-in line merge.
pub fn merge_builtin(base: &[u8], ours: &[u8], theirs: &[u8]) -> (m: Merged)
    ensures
        merged_view(m) == builtin_merge(base@, ours@, theirs@),
{
    if is_binary(base) || is_binary(ours) || is_binary(theirs) {
        let conflict = Some("binary: the sidecar holds the profile's version".to_owned());
        return Merged { bytes: crate::text::bytes_of(theirs), conflict };
    }
    match merge_lines(base, ours, theirs) {
        Ok(bytes) => Merged { bytes, conflict: None },
        Err(bytes) => Merged { bytes, conflict: Some("conflicting changes".to_owned()) },
    }
}

/// The texts of `paths`.
pub open spec fn path_texts(paths: Seq<crate::path::RelPath>) -> Seq<Seq<char>> {
    paths.map_values(|p: crate::path::RelPath| p@)
}

/// The paths, as strings.
fn path_strings(paths: &Vec<crate::path::RelPath>) -> (out: Vec<String>)
    ensures
        crate::text::views(out@) == path_texts(paths@),
{
    let mut out: Vec<String> = Vec::new();
    let mut i: usize = 0;
    while i < paths.len()
        invariant
            i <= paths@.len(),
            crate::text::views(out@) == path_texts(paths@.take(i as int)),
        decreases paths@.len() - i,
    {
        let ghost before = crate::text::views(out@);
        out.push(paths[i].as_str().to_owned());
        assert(crate::text::views(out@) =~= before.push(paths@[i as int]@));
        i += 1;
        assert(path_texts(paths@.take(i as int)) =~= path_texts(paths@.take(i - 1)).push(paths@[i - 1]@));
    }
    assert(paths@.take(paths@.len() as int) == paths@);
    out
}

/// What a [`MergeError`] says.
pub open spec fn merge_message(e: MergeError) -> Seq<char> {
    match e {
        MergeError::Driver { line, reason } => "merge driver `"@ + line@ + "`: "@ + reason.text(),
        MergeError::NoDriver { program } => "merge driver `"@ + program@ + "` is not installed"@,
        MergeError::Run { program, reason } => "merge driver `"@ + program@ + "`: "@ + reason@,
        MergeError::Unresolved { paths } => crate::errors::plural_of(paths@.len(), "conflict"@) + " unresolved: "@
            + crate::errors::listed(path_texts(paths@)),
        MergeError::NothingToContinue => "there are no conflicts to continue from"@,
        MergeError::NothingToAbort => "there is no unfinished update to abort"@,
        MergeError::ChangedSince { paths } => crate::errors::plural_of(paths@.len(), "file"@) + " changed since the update: "@
            + crate::errors::listed(crate::text::views(paths@)),
        MergeError::CorruptUndo { path } => "the saved copy of "@ + path@ + " in .devset/conflicts/.devset/ is missing or damaged"@,
        MergeError::Unmerged { path } => ".devset/conflicts/"@ + path@ + " still has conflict markers"@,
        MergeError::Invalid { path, reason } => ".devset/conflicts/"@ + path@ + ": "@ + reason@,
    }
}

impl MergeError {
    /// The error as a message.
    pub fn to_string(&self) -> (r: String)
        ensures
            r@ == merge_message(*self),
    {
        match self {
            MergeError::Driver { line, reason } => {
                let out = cat("merge driver `", line.as_str());
                let out = cat(out.as_str(), "`: ");
                cat(out.as_str(), reason.message())
            },
            MergeError::NoDriver { program } => {
                let out = cat("merge driver `", program.as_str());
                cat(out.as_str(), "` is not installed")
            },
            MergeError::Run { program, reason } => {
                let out = cat("merge driver `", program.as_str());
                let out = cat(out.as_str(), "`: ");
                cat(out.as_str(), reason.as_str())
            },
            MergeError::Unresolved { paths } => {
                let out = cat(crate::errors::plural(paths.len(), "conflict").as_str(), " unresolved: ");
                cat(out.as_str(), crate::errors::list(&path_strings(paths)).as_str())
            },
            MergeError::NothingToContinue => "there are no conflicts to continue from".to_owned(),
            MergeError::NothingToAbort => "there is no unfinished update to abort".to_owned(),
            MergeError::ChangedSince { paths } => {
                let out = cat(crate::errors::plural(paths.len(), "file").as_str(), " changed since the update: ");
                cat(out.as_str(), crate::errors::list(paths).as_str())
            },
            MergeError::CorruptUndo { path } => {
                let out = cat("the saved copy of ", path.as_str());
                cat(out.as_str(), " in .devset/conflicts/.devset/ is missing or damaged")
            },
            MergeError::Unmerged { path } => {
                let out = cat(".devset/conflicts/", path.as_str());
                cat(out.as_str(), " still has conflict markers")
            },
            MergeError::Invalid { path, reason } => {
                let out = cat(".devset/conflicts/", path.as_str());
                let out = cat(out.as_str(), ": ");
                cat(out.as_str(), reason.as_str())
            },
        }
    }
}

/// `s` without leading whitespace.
pub open spec fn trimmed_start(s: Seq<char>) -> Seq<char>
    decreases s.len(),
{
    if s.len() > 0 && crate::text::is_space(s[0]) {
        trimmed_start(s.drop_first())
    } else {
        s
    }
}

/// `s` without leading or trailing whitespace, as `str::trim` has it.
pub open spec fn trimmed(s: Seq<char>) -> Seq<char> {
    crate::git::trimmed_end(trimmed_start(s))
}

/// `s` without leading or trailing whitespace.
pub fn trim(s: &str) -> (out: String)
    ensures
        out@ == trimmed(s@),
{
    let chars = chars_of(s);
    let mut start: usize = 0;
    assert(chars@.skip(0) =~= chars@);
    while start < chars.len() && crate::part::block::space(chars[start])
        invariant
            start <= chars@.len(),
            trimmed_start(chars@) == trimmed_start(chars@.skip(start as int)),
        decreases chars@.len() - start,
    {
        assert(chars@.skip(start as int).drop_first() =~= chars@.skip(start + 1));
        start += 1;
    }
    proof {
        if start < chars@.len() {
            assert(chars@.skip(start as int)[0] == chars@[start as int]);
        }
    }
    let rest = crate::text::slice_of(&chars, start, chars.len());
    assert(rest@ =~= chars@.skip(start as int));
    string_of(&crate::git::trim_end(&rest))
}

/// `code` in decimal, with a `-` when negative.
pub open spec fn signed_decimal(code: int) -> Seq<char> {
    if code < 0 {
        seq!['-'] + crate::text::decimal((-code) as nat)
    } else {
        crate::text::decimal(code as nat)
    }
}

/// Why a merge program's run is a conflict: its error output, trimmed; or, where that is empty,
/// that it exited with `code`.
pub open spec fn exit_conflict(program: Seq<char>, code: int, stderr: Seq<char>) -> Seq<char> {
    if trimmed(stderr).len() == 0 {
        "`"@ + program + "` exited "@ + signed_decimal(code)
    } else {
        trimmed(stderr)
    }
}

impl Driver {
    /// The arguments this driver runs one merge with: each with `%O %A %B %P` filled in from
    /// the ancestor's, ours' and theirs' files and the path. `None` for the built-in merge; an
    /// error for a line that names no program.
    pub fn argv(&self, o: &str, a: &str, b: &str, p: &str) -> (r: Option<Result<Vec<String>, MergeError>>)
        ensures
            match *self {
                Driver::Builtin => r is None,
                Driver::Command { line, args } => if args@.len() == 0 {
                    r matches Some(Err(MergeError::Driver { line: l, reason })) && l@ == line@ && reason
                        == DriverFault::Empty
                } else {
                    r matches Some(Ok(v)) && v@.len() == args@.len() && forall|i: int| 0 <= i < v@.len()
                        ==> #[trigger] v@[i]@ == expand_from(args@[i]@, 0, o@, a@, b@, p@)
                },
            },
    {
        match self {
            Driver::Builtin => None,
            Driver::Command { line, args } => {
                if args.len() == 0 {
                    return Some(Err(MergeError::Driver { line: line.clone(), reason: DriverFault::Empty }));
                }
                let mut out: Vec<String> = Vec::new();
                let mut i: usize = 0;
                while i < args.len()
                    invariant
                        i <= args@.len(),
                        out@.len() == i,
                        forall|k: int| 0 <= k < i ==> #[trigger] out@[k]@ == expand_from(args@[k]@, 0, o@, a@, b@, p@),
                    decreases args@.len() - i,
                {
                    out.push(expand(args[i].as_str(), [o, a, b, p]));
                    i += 1;
                }
                Some(Ok(out))
            },
        }
    }
}

/// What a merge program's run comes to, given how it ended (`Some` exit code, or `None` where
/// a signal stopped it), its error output, and the bytes it left at `%A`: merged where it exited
/// zero; else a conflict, told by `exit_conflict`; an error where a signal stopped it.
pub fn outcome(program: &str, code: Option<i32>, stderr: &str, bytes: Vec<u8>) -> (r: Result<Merged, MergeError>)
    ensures
        match code {
            None => match r {
                Err(MergeError::Run { program: p, reason }) => p@ == program@ && reason@ == "killed by a signal"@,
                _ => false,
            },
            Some(c) => r matches Ok(m) && m.bytes == bytes && if c == 0 {
                m.conflict is None
            } else {
                m.conflict matches Some(why) && why@ == exit_conflict(program@, c as int, stderr@)
            },
        },
{
    match code {
        None => {
            let reason = "killed by a signal".to_owned();
            Err(MergeError::Run { program: program.to_owned(), reason })
        },
        Some(0) => Ok(Merged { bytes, conflict: None }),
        Some(c) => {
            let why = trim(stderr);
            if chars_of(why.as_str()).len() == 0 {
                let number = if c < 0 {
                    let n: i64 = c as i64;
                    let m: u64 = (-n) as u64;
                    assert(m as nat == (-(c as int)) as nat);
                    let digits = crate::text::decimal_of_u64(m);
                    let out = cat("-", digits.as_str());
                    proof {
                        reveal_strlit("-");
                        assert("-"@ =~= seq!['-']);
                    }
                    out
                } else {
                    let m: u64 = c as u64;
                    assert(m as nat == c as nat);
                    crate::text::decimal_of_u64(m)
                };
                let head = cat("`", program);
                let head = cat(head.as_str(), "` exited ");
                Ok(Merged { bytes, conflict: Some(cat(head.as_str(), number.as_str())) })
            } else {
                Ok(Merged { bytes, conflict: Some(why) })
            }
        },
    }
}

/// The error for a merge program that could not be started: not installed, where the system
/// found no such program; else stopped, for the system's `reason`.
pub fn not_started(program: &str, not_found: bool, reason: String) -> (e: MergeError)
    ensures
        not_found ==> (e matches MergeError::NoDriver { program: p } && p@ == program@),
        !not_found ==> (e matches MergeError::Run { program: p, reason: why } && p@ == program@ && why == reason),
{
    if not_found {
        MergeError::NoDriver { program: program.to_owned() }
    } else {
        MergeError::Run { program: program.to_owned(), reason }
    }
}

} // verus!
