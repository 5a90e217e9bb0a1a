//! Where a layer's profile comes from: a local directory, or a git repository at one commit.

use vstd::prelude::*;

use crate::lexical::{components, components_of, join_components, joined_components, path_of, path_text, relative_of, relative_path, resolve, resolved};
use crate::path::{PathError, RelPath, path_rule};
use crate::text::{debug_str, quoted, ascii_lower, ascii_lower_seq, cat, chars_of, has, is_hex, split, split_chars, string_of};

verus! {

/// A full commit id: 40 or 64 hex digits, lowercase.
#[derive(Debug, PartialEq, Eq)]
pub struct Oid {
    text: String,
}

impl View for Oid {
    type V = Seq<char>;

    closed spec fn view(&self) -> Seq<char> {
        self.text@
    }
}

impl Clone for Oid {
    fn clone(&self) -> (out: Self)
        ensures
            out == *self,
    {
        Oid { text: self.text.clone() }
    }
}

/// Whether `id` is a full commit id as written: 40 or 64 hex digits, either case.
pub open spec fn commit_id(id: Seq<char>) -> bool {
    (id.len() == 40 || id.len() == 64) && forall|i: int| 0 <= i < id.len() ==> is_hex(#[trigger] id[i])
}

/// Which commit of a git source.
#[derive(Debug, PartialEq, Eq)]
pub enum GitRef {
    /// The remote's default branch.
    Head,
    /// A branch.
    Branch(String),
    /// A tag.
    Tag(String),
    /// A commit.
    Rev(Oid),
}

/// A ref, as text for comparing.
pub open spec fn ref_view(r: GitRef) -> (int, Seq<char>) {
    match r {
        GitRef::Head => (0, Seq::empty()),
        GitRef::Branch(b) => (1, b@),
        GitRef::Tag(t) => (2, t@),
        GitRef::Rev(o) => (3, o@),
    }
}

impl Clone for GitRef {
    fn clone(&self) -> (out: Self)
        ensures
            ref_view(out) == ref_view(*self),
    {
        match self {
            GitRef::Head => GitRef::Head,
            GitRef::Branch(b) => GitRef::Branch(b.clone()),
            GitRef::Tag(t) => GitRef::Tag(t.clone()),
            GitRef::Rev(o) => GitRef::Rev(o.clone()),
        }
    }
}

impl GitRef {
    /// Whether two refs name one commit the same way.
    pub fn same(&self, other: &GitRef) -> (r: bool)
        ensures
            r == (ref_view(*self) == ref_view(*other)),
    {
        match (self, other) {
            (GitRef::Head, GitRef::Head) => true,
            (GitRef::Branch(a), GitRef::Branch(b)) => *a == *b,
            (GitRef::Tag(a), GitRef::Tag(b)) => *a == *b,
            (GitRef::Rev(a), GitRef::Rev(b)) => a.text == b.text,
            _ => false,
        }
    }
}

/// Why a source is not one.
#[derive(Clone, Debug, PartialEq, Eq)]
pub enum SourceError {
    /// Neither `git` nor `path`.
    NoLocation,
    /// `path` is empty.
    EmptyPath,
    /// `tag`, `branch` or `rev` without `git`.
    RefWithoutGit,
    /// More than one of `tag`, `branch` and `rev`.
    TwoRefs,
    /// `git` is not a repository URL.
    Url {
        /// As written.
        url: String,
    },
    /// `rev` is not a full commit id.
    Rev {
        /// As written.
        rev: String,
    },
    /// The path in a repository is not a path.
    Path(PathError),
    /// A file the profile lists is a symlink, a directory or a submodule.
    NotAFile {
        /// The file, as a path or `<commit>:<path>`.
        file: String,
    },
    /// `git` is not on `PATH`.
    NoGit,
    /// The remote has no such branch or tag, or no default branch.
    NoRef {
        /// The remote, as configured.
        url: String,
        /// What was asked for: `branch <name>`, `tag <name>` or `a default branch`.
        reference: String,
    },
    /// The remote has no commit with the pinned id.
    NoCommit {
        /// The remote, as configured.
        url: String,
        /// The commit asked for.
        rev: Oid,
    },
    /// The remote needs credentials that git could not get.
    Credentials {
        /// The remote, as configured.
        url: String,
    },
    /// A `git` command failed.
    Git {
        /// The subcommand, and the remote as configured when it reached one.
        command: String,
        /// What git reported, one message per line.
        stderr: String,
    },
}

/// The first line of `text`, without its line ending; `None` when `text` is empty.
pub open spec fn first_line(text: Seq<char>) -> Option<Seq<char>> {
    if text.len() == 0 {
        None
    } else {
        let line = match crate::text::first_index(text, '\n') {
            Some(i) => text.take(i),
            None => text,
        };
        Some(if line.len() > 0 && line.last() == '\r' {
            line.drop_last()
        } else {
            line
        })
    }
}

/// The first line of `text`, without its line ending; `None` when `text` is empty.
pub fn first_line_of(text: &str) -> (r: Option<String>)
    ensures
        match r {
            Some(l) => first_line(text@) == Some(l@),
            None => first_line(text@) is None,
        },
{
    let chars = chars_of(text);
    if chars.len() == 0 {
        return None;
    }
    let line = match crate::text::find_char(&chars, '\n') {
        Some(i) => crate::text::slice_of(&chars, 0, i),
        None => crate::text::copy_chars(&chars),
    };
    assert(line@ == match crate::text::first_index(text@, '\n') {
        Some(i) => text@.take(i),
        None => text@,
    });
    if line.len() > 0 && line[line.len() - 1] == '\r' {
        Some(string_of(&crate::text::slice_of(&line, 0, line.len() - 1)))
    } else {
        Some(string_of(&line))
    }
}

/// What a [`SourceError`] says.
pub open spec fn source_message(e: SourceError) -> Seq<char> {
    match e {
        SourceError::NoLocation => "invalid source: needs `git` or `path`"@,
        SourceError::EmptyPath => "invalid source: `path` is empty"@,
        SourceError::RefWithoutGit => "invalid source: `tag`, `branch` and `rev` need `git`"@,
        SourceError::TwoRefs => "invalid source: at most one of `tag`, `branch` and `rev`"@,
        SourceError::Url { url } => "invalid source: `git` must be a repository URL, not "@
            + debug_str(url@),
        SourceError::Rev { rev } => "invalid source: `rev` must be a full commit id, not "@
            + debug_str(rev@),
        SourceError::Path(e) => "invalid path "@ + debug_str(e.path@) + ": "@ + e.rule.message_spec(),
        SourceError::NotAFile { file } => file@ + " is not a regular file"@,
        SourceError::NoGit => "git sources need `git`, which is not on PATH"@,
        SourceError::NoRef { url, reference } => url@ + " has no "@ + reference@,
        SourceError::NoCommit { url, rev } => url@ + " has no commit "@ + rev@,
        SourceError::Credentials { url } => url@ + " needs credentials, and git could not get them"@,
        SourceError::Git { command, stderr } => "git "@ + command@ + " failed: "@ + match first_line(
            stderr@,
        ) {
            Some(l) => l,
            None => "with no message"@,
        },
    }
}

impl SourceError {
    /// The error as a message.
    pub fn to_string(&self) -> (r: String)
        ensures
            r@ == source_message(*self),
    {
        match self {
            SourceError::NoLocation => "invalid source: needs `git` or `path`".to_owned(),
            SourceError::EmptyPath => "invalid source: `path` is empty".to_owned(),
            SourceError::RefWithoutGit => "invalid source: `tag`, `branch` and `rev` need `git`".to_owned(),
            SourceError::TwoRefs => "invalid source: at most one of `tag`, `branch` and `rev`".to_owned(),
            SourceError::Url { url } => cat("invalid source: `git` must be a repository URL, not ", quoted(url.as_str()).as_str()),
            SourceError::Rev { rev } => cat("invalid source: `rev` must be a full commit id, not ", quoted(rev.as_str()).as_str()),
            SourceError::Path(e) => e.message(),
            SourceError::NotAFile { file } => cat(file.as_str(), " is not a regular file"),
            SourceError::NoGit => "git sources need `git`, which is not on PATH".to_owned(),
            SourceError::NoRef { url, reference } => {
                let a = cat(url.as_str(), " has no ");
                cat(a.as_str(), reference.as_str())
            },
            SourceError::NoCommit { url, rev } => {
                let a = cat(url.as_str(), " has no commit ");
                cat(a.as_str(), rev.as_str())
            },
            SourceError::Credentials { url } => cat(url.as_str(), " needs credentials, and git could not get them"),
            SourceError::Git { command, stderr } => {
                let a = cat("git ", command.as_str());
                let a = cat(a.as_str(), " failed: ");
                match first_line_of(stderr.as_str()) {
                    Some(l) => cat(a.as_str(), l.as_str()),
                    None => cat(a.as_str(), "with no message"),
                }
            },
        }
    }
}

impl Oid {
    /// `id`, checked to be a full commit id, lowercased.
    pub fn new(id: &str) -> (r: Result<Oid, SourceError>)
        ensures
            match r {
                Ok(oid) => commit_id(id@) && oid@ == ascii_lower_seq(id@),
                Err(SourceError::Rev { rev }) => !commit_id(id@) && rev@ == id@,
                Err(_) => false,
            },
    {
        let chars = chars_of(id);
        let n = chars.len();
        if !(n == 40 || n == 64) {
            return Err(SourceError::Rev { rev: id.to_owned() });
        }
        let mut lower: Vec<char> = Vec::new();
        let mut i: usize = 0;
        while i < n
            invariant
                i <= n,
                n == chars@.len(),
                chars@ == id@,
                forall|j: int| 0 <= j < i ==> is_hex(#[trigger] chars@[j]),
                lower@ == ascii_lower_seq(chars@.take(i as int)),
            decreases n - i,
        {
            let c = chars[i];
            if !(('a' <= c && c <= 'f') || ('A' <= c && c <= 'F') || ('0' <= c && c <= '9')) {
                assert(!is_hex(chars@[i as int]));
                return Err(SourceError::Rev { rev: id.to_owned() });
            }
            let l = if 'A' <= c && c <= 'F' {
                ((c as u8) + 32) as char
            } else {
                c
            };
            assert(l == ascii_lower(c));
            lower.push(l);
            i += 1;
            assert(ascii_lower_seq(chars@.take(i as int)) == ascii_lower_seq(chars@.take(i - 1)).push(ascii_lower(c)));
        }
        assert(chars@.take(n as int) == chars@);
        Ok(Oid { text: string_of(&lower) })
    }

    /// The id as hex.
    pub fn as_str(&self) -> (r: &str)
        ensures
            r@ == self@,
    {
        self.text.as_str()
    }

    /// Its first seven digits, as git abbreviates it; all of it, were it shorter.
    pub fn short(&self) -> (r: String)
        ensures
            r@ == if self@.len() >= 7 {
                self@.take(7)
            } else {
                self@
            },
    {
        let chars = chars_of(self.text.as_str());
        if chars.len() >= 7 {
            string_of(&crate::text::slice_of(&chars, 0, 7))
        } else {
            self.text.clone()
        }
    }
}

/// A source as written in `config.toml`: Cargo's git-dependency fields.
#[derive(Clone, Debug, Default)]
pub struct SourceSpec {
    /// Repository URL.
    pub git: Option<String>,
    /// Tag to use; only with `git`.
    pub tag: Option<String>,
    /// Branch to use; only with `git`.
    pub branch: Option<String>,
    /// Full commit id to use; only with `git`.
    pub rev: Option<String>,
    /// The profile's directory: relative to the target, or within the repository with `git`.
    pub path: Option<String>,
}

/// Where a layer's profile comes from; written as [`SourceSpec`].
#[derive(Debug, PartialEq, Eq)]
pub enum Source {
    /// A directory, relative to the target root unless absolute.
    Dir(String),
    /// A git repository.
    Git {
        /// Anything `git fetch` accepts.
        url: String,
        /// Which commit.
        at: GitRef,
        /// The profile's directory in the repository; its root if `None`.
        path: Option<RelPath>,
    },
}

/// A source, as values for comparing.
pub open spec fn source_view(s: Source) -> (bool, Seq<char>, (int, Seq<char>), Option<Seq<char>>) {
    match s {
        Source::Dir(d) => (false, d@, (0, Seq::empty()), None),
        Source::Git { url, at, path } => (true, url@, ref_view(at), match path {
            Some(p) => Some(p@),
            None => None,
        }),
    }
}

impl Clone for Source {
    fn clone(&self) -> (out: Self)
        ensures
            source_view(out) == source_view(*self),
    {
        match self {
            Source::Dir(d) => Source::Dir(d.clone()),
            Source::Git { url, at, path } => Source::Git {
                url: url.clone(),
                at: at.clone(),
                path: match path {
                    Some(p) => Some(p.clone()),
                    None => None,
                },
            },
        }
    }
}

/// A piece of a path.
#[derive(Clone, Copy, Debug, PartialEq, Eq, Structural)]
pub enum Piece {
    /// The root, `/`.
    Root,
    /// `.`.
    Here,
    /// `..`.
    Up,
    /// A name.
    Name,
}

/// What a non-empty `/`-separated piece of a path is.
pub open spec fn piece_of(s: Seq<char>) -> Piece {
    if s == seq!['.'] {
        Piece::Here
    } else if s == seq!['.', '.'] {
        Piece::Up
    } else {
        Piece::Name
    }
}

/// `path` without `.` pieces and empty ones, so one directory has one spelling, its root kept;
/// `.` when nothing is left.
pub open spec fn tidy(path: Seq<char>) -> Seq<char> {
    let kept = split(path, '/').filter(|p: Seq<char>| p.len() > 0 && p != seq!['.']);
    let joined = crate::text::join(kept, '/');
    let rooted = if path.len() > 0 && path[0] == '/' {
        seq!['/'] + joined
    } else {
        joined
    };
    if rooted.len() == 0 {
        seq!['.']
    } else {
        rooted
    }
}

/// `path` without `.` pieces, so one directory has one spelling; `None` when empty.
fn dir(path: &str) -> (r: Option<String>)
    ensures
        match r {
            Some(d) => path@.len() > 0 && d@ == tidy(path@),
            None => path@.len() == 0,
        },
{
    let chars = chars_of(path);
    if chars.len() == 0 {
        return None;
    }
    let pieces = split_chars(&chars, '/');
    let ghost all = split(path@, '/');
    let mut kept: Vec<Vec<char>> = Vec::new();
    let mut i: usize = 0;
    while i < pieces.len()
        invariant
            i <= pieces@.len(),
            pieces@.len() == all.len(),
            all == split(path@, '/'),
            forall|k: int| 0 <= k < pieces@.len() ==> #[trigger] pieces@[k]@ == all[k],
            kept.deep_view() == all.take(i as int).filter(|p: Seq<char>| p.len() > 0 && p != seq!['.']),
        decreases pieces@.len() - i,
    {
        let p = &pieces[i];
        let keep = p.len() > 0 && !(p.len() == 1 && p[0] == '.');
        proof {
            assert(all.take(i + 1).drop_last() == all.take(i as int));
            reveal(Seq::filter);
            if p@.len() == 1 && p@[0] == '.' {
                assert(p@ =~= seq!['.']);
            }
        }
        if keep {
            let ghost was = kept.deep_view();
            let c = crate::text::copy_chars(p.as_slice());
            assert(c.deep_view() =~= p@);
            kept.push(c);
            assert(kept.deep_view() =~= was.push(p@));
        }
        i += 1;
    }
    assert(all.take(all.len() as int) == all);
    let mut out: Vec<char> = Vec::new();
    if chars[0] == '/' {
        out.push('/');
    }
    let joined = crate::text::joined(&kept, '/');
    crate::text::extend(&mut out, &joined);
    if out.len() == 0 {
        out.push('.');
        assert(out@ == seq!['.']);
    }
    Some(string_of(&out))
}

/// Why a [`SourceSpec`] is not a source, checked in order; `None` when it is.
pub open spec fn spec_fault(
    git: Option<Seq<char>>,
    tag: bool,
    branch: bool,
    rev: Option<Seq<char>>,
    path: Option<Seq<char>>,
) -> Option<SourceFault> {
    match git {
        None => if tag || branch || rev is Some {
            Some(SourceFault::RefWithoutGit)
        } else {
            match path {
                None => Some(SourceFault::NoLocation),
                Some(p) => if p.len() == 0 {
                    Some(SourceFault::EmptyPath)
                } else {
                    None
                },
            }
        },
        Some(url) => if url.len() == 0 || url[0] == '-' {
            Some(SourceFault::Url)
        } else if (tag as int) + (branch as int) + ((rev is Some) as int) > 1 {
            Some(SourceFault::TwoRefs)
        } else if rev is Some && !commit_id(rev->0) {
            Some(SourceFault::Rev)
        } else if path is Some && path->0.len() > 0 && path_rule(path->0) is Some {
            Some(SourceFault::Path)
        } else {
            None
        },
    }
}

/// The kinds of [`SourceError`] a spec gives.
#[derive(Clone, Copy, Debug, PartialEq, Eq, Structural)]
pub enum SourceFault {
    /// [`SourceError::NoLocation`].
    NoLocation,
    /// [`SourceError::EmptyPath`].
    EmptyPath,
    /// [`SourceError::RefWithoutGit`].
    RefWithoutGit,
    /// [`SourceError::TwoRefs`].
    TwoRefs,
    /// [`SourceError::Url`].
    Url,
    /// [`SourceError::Rev`].
    Rev,
    /// [`SourceError::Path`].
    Path,
    /// An error in reading a source, which no spec gives.
    Read,
}

/// The kind of `e`.
pub open spec fn fault_of(e: SourceError) -> SourceFault {
    match e {
        SourceError::NoLocation => SourceFault::NoLocation,
        SourceError::EmptyPath => SourceFault::EmptyPath,
        SourceError::RefWithoutGit => SourceFault::RefWithoutGit,
        SourceError::TwoRefs => SourceFault::TwoRefs,
        SourceError::Url { .. } => SourceFault::Url,
        SourceError::Rev { .. } => SourceFault::Rev,
        SourceError::Path(_) => SourceFault::Path,
        _ => SourceFault::Read,
    }
}

/// The text of an optional string.
pub open spec fn opt_view(s: Option<String>) -> Option<Seq<char>> {
    match s {
        Some(s) => Some(s@),
        None => None,
    }
}

impl Source {
    /// The source `spec` writes.
    ///
    /// A directory is kept without its `.` pieces; a git source's commit id is lowercased, and an
    /// empty `path` in a repository is its root.
    pub fn from_spec(spec: SourceSpec) -> (r: Result<Source, SourceError>)
        ensures
            match r {
                Err(e) => spec_fault(opt_view(spec.git), spec.tag is Some, spec.branch is Some, opt_view(spec.rev), opt_view(spec.path)) == Some(fault_of(e)),
                Ok(Source::Dir(d)) => spec_fault(opt_view(spec.git), spec.tag is Some, spec.branch is Some, opt_view(spec.rev), opt_view(spec.path)) is None
                    && spec.git is None && d@ == tidy(spec.path->0@),
                Ok(Source::Git { url, at, path }) => spec_fault(opt_view(spec.git), spec.tag is Some, spec.branch is Some, opt_view(spec.rev), opt_view(spec.path)) is None
                    && spec.git == Some(url) && match at {
                        GitRef::Head => spec.tag is None && spec.branch is None && spec.rev is None,
                        GitRef::Tag(t) => spec.tag == Some(t),
                        GitRef::Branch(b) => spec.branch == Some(b),
                        GitRef::Rev(o) => spec.rev is Some && o@ == ascii_lower_seq(spec.rev->0@),
                    } && match path {
                        Some(p) => spec.path is Some && p@ == spec.path->0@,
                        None => spec.path is None || spec.path->0@.len() == 0,
                    },
            },
    {
        let SourceSpec { git, tag, branch, rev, path } = spec;
        let url = match git {
            Some(url) => url,
            None => {
                if tag.is_some() || branch.is_some() || rev.is_some() {
                    return Err(SourceError::RefWithoutGit);
                }
                let path = match path {
                    Some(path) => path,
                    None => return Err(SourceError::NoLocation),
                };
                return match dir(path.as_str()) {
                    Some(d) => Ok(Source::Dir(d)),
                    None => Err(SourceError::EmptyPath),
                };
            },
        };
        let chars = chars_of(url.as_str());
        if chars.len() == 0 || chars[0] == '-' {
            return Err(SourceError::Url { url });
        }
        let at = match (tag, branch, rev) {
            (None, None, None) => GitRef::Head,
            (Some(tag), None, None) => GitRef::Tag(tag),
            (None, Some(branch), None) => GitRef::Branch(branch),
            (None, None, Some(rev)) => match Oid::new(rev.as_str()) {
                Ok(oid) => GitRef::Rev(oid),
                Err(e) => return Err(e),
            },
            _ => return Err(SourceError::TwoRefs),
        };
        let path = match path {
            None => None,
            Some(p) => if chars_of(p.as_str()).len() == 0 {
                None
            } else {
                match RelPath::new(p.as_str()) {
                    Ok(rel) => Some(rel),
                    Err(e) => return Err(SourceError::Path(e)),
                }
            },
        };
        Ok(Source::Git { url, at, path })
    }

    /// The spec that writes this source.
    pub fn to_spec(&self) -> (spec: SourceSpec)
        ensures
            match *self {
                Source::Dir(d) => spec.git is None && opt_view(spec.path) == Some(d@) && spec.tag is None
                    && spec.branch is None && spec.rev is None,
                Source::Git { url, at, path } => opt_view(spec.git) == Some(url@) && opt_view(spec.path) == match path {
                    Some(p) => Some(p@),
                    None => None,
                } && match at {
                    GitRef::Head => spec.tag is None && spec.branch is None && spec.rev is None,
                    GitRef::Branch(b) => opt_view(spec.branch) == Some(b@) && spec.tag is None && spec.rev is None,
                    GitRef::Tag(t) => opt_view(spec.tag) == Some(t@) && spec.branch is None && spec.rev is None,
                    GitRef::Rev(o) => opt_view(spec.rev) == Some(o@) && spec.tag is None && spec.branch is None,
                },
            },
    {
        match self {
            Source::Dir(d) => SourceSpec { git: None, tag: None, branch: None, rev: None, path: Some(d.clone()) },
            Source::Git { url, at, path } => {
                let path = match path {
                    Some(p) => Some(p.as_str().to_owned()),
                    None => None,
                };
                let (tag, branch, rev) = match at {
                    GitRef::Head => (None, None, None),
                    GitRef::Branch(b) => (None, Some(b.clone()), None),
                    GitRef::Tag(t) => (Some(t.clone()), None, None),
                    GitRef::Rev(o) => (None, None, Some(o.text.clone())),
                };
                SourceSpec { git: Some(url.clone()), tag, branch, rev, path }
            },
        }
    }

    /// Whether two sources are one.
    pub fn same(&self, other: &Source) -> (r: bool)
        ensures
            r == (source_view(*self) == source_view(*other)),
    {
        match (self, other) {
            (Source::Dir(a), Source::Dir(b)) => *a == *b,
            (Source::Git { url, at, path }, Source::Git { url: u2, at: a2, path: p2 }) => {
                *url == *u2 && at.same(a2) && match (path, p2) {
                    (Some(p), Some(q)) => p.same(q),
                    (None, None) => true,
                    _ => false,
                }
            },
            _ => false,
        }
    }

    /// Whether `other` is this profile at another ref: one repository and path, two refs.
    pub fn twin(&self, other: &Source) -> (r: bool)
        ensures
            r == (source_view(*self).0 && source_view(*other).0 && source_view(*self).1 == source_view(*other).1
                && source_view(*self).3 == source_view(*other).3 && source_view(*self).2 != source_view(*other).2),
    {
        match (self, other) {
            (Source::Git { url, at, path }, Source::Git { url: u2, at: a2, path: p2 }) => {
                *url == *u2 && match (path, p2) {
                    (Some(p), Some(q)) => p.same(q),
                    (None, None) => true,
                    _ => false,
                } && !at.same(a2)
            },
            _ => false,
        }
    }
}

/// What to ask the remote for: a full ref name, or the commit id itself.
pub open spec fn wanted_of(at: GitRef) -> Seq<char> {
    match at {
        GitRef::Head => "HEAD"@,
        GitRef::Branch(b) => "refs/heads/"@ + b@,
        GitRef::Tag(t) => "refs/tags/"@ + t@,
        GitRef::Rev(o) => o@,
    }
}

/// What to ask the remote for: a full ref name, or the commit id itself.
pub fn wanted(at: &GitRef) -> (r: String)
    ensures
        r@ == wanted_of(*at),
{
    match at {
        GitRef::Head => "HEAD".to_owned(),
        GitRef::Branch(b) => cat("refs/heads/", b.as_str()),
        GitRef::Tag(t) => cat("refs/tags/", t.as_str()),
        GitRef::Rev(o) => o.text.clone(),
    }
}

/// Whether `url` names a remote repository rather than a local path: it has `://`, or a `:`
/// before any `/`, git's scp-like form.
pub open spec fn remote_url(url: Seq<char>) -> bool {
    (exists|i: int| 0 <= i < url.len() - 2 && #[trigger] url[i] == ':' && url[i + 1] == '/' && url[i + 2] == '/')
        || match crate::text::first_index(url, ':') {
        None => false,
        Some(colon) => match crate::text::first_index(url, '/') {
            None => true,
            Some(slash) => colon < slash,
        },
    }
}

/// Whether `url` names a remote repository rather than a local path.
pub fn remote(url: &str) -> (r: bool)
    ensures
        r == remote_url(url@),
{
    let chars = chars_of(url);
    let n = chars.len();
    let mut i: usize = 0;
    while n >= 3 && i < n - 2
        invariant
            i <= n,
            n == chars@.len(),
            chars@ == url@,
            forall|j: int| 0 <= j < i && j < n - 2 ==> !(#[trigger] chars@[j] == ':' && chars@[j + 1] == '/' && chars@[j + 2] == '/'),
        decreases n - i,
    {
        if chars[i] == ':' && chars[i + 1] == '/' && chars[i + 2] == '/' {
            return true;
        }
        i += 1;
    }
    match crate::text::find_char(&chars, ':') {
        None => false,
        Some(colon) => match crate::text::find_char(&chars, '/') {
            None => true,
            Some(slash) => colon < slash,
        },
    }
}

/// A source as people read it: its directory; or its URL, then its ref and its path where set.
pub open spec fn source_text(s: Source) -> Seq<char> {
    match s {
        Source::Dir(d) => d@,
        Source::Git { url, at, path } => url@ + match at {
            GitRef::Head => Seq::empty(),
            GitRef::Branch(b) => " branch "@ + b@,
            GitRef::Tag(t) => " tag "@ + t@,
            GitRef::Rev(o) => " rev "@ + o@,
        } + match path {
            Some(p) => " path "@ + p@,
            None => Seq::empty(),
        },
    }
}

impl Source {
    /// The source as people read it.
    pub fn to_string(&self) -> (r: String)
        ensures
            r@ == source_text(*self),
    {
        match self {
            Source::Dir(d) => d.clone(),
            Source::Git { url, at, path } => {
                let head = match at {
                    GitRef::Head => {
                        let out = url.clone();
                        assert(out@ =~= url@ + Seq::<char>::empty());
                        out
                    },
                    GitRef::Branch(b) => cat(url.as_str(), cat(" branch ", b.as_str()).as_str()),
                    GitRef::Tag(t) => cat(url.as_str(), cat(" tag ", t.as_str()).as_str()),
                    GitRef::Rev(o) => cat(url.as_str(), cat(" rev ", o.as_str()).as_str()),
                };
                match path {
                    Some(p) => cat(head.as_str(), cat(" path ", p.as_str()).as_str()),
                    None => {
                        assert(head@ =~= head@ + Seq::<char>::empty());
                        head
                    },
                }
            },
        }
    }
}

/// Remote access for a git layer, reported to whoever watches fetches.
#[derive(Clone, Copy, Debug)]
pub enum Fetch<'a> {
    /// About to contact this URL.
    Start(&'a str),
    /// Finished with it.
    Done(&'a str),
}

/// `url` as git sees it from any directory: a local path is made absolute against `root`, by
/// name; a remote URL stays as it is.
pub open spec fn located(url: Seq<char>, root: Seq<char>) -> Seq<char> {
    if remote_url(url) {
        url
    } else {
        path_of(resolved(joined_components(root, url)))
    }
}

/// `url` as git sees it from any directory.
pub fn locate(url: &str, root: &str) -> (out: String)
    ensures
        out@ == located(url@, root@),
{
    if remote(url) {
        url.to_owned()
    } else {
        let cs = join_components(root, url);
        string_of(path_text(&resolve(&cs)).as_slice())
    }
}

/// Whether `path` is absolute.
pub open spec fn absolute(path: Seq<char>) -> bool {
    path.len() > 0 && path[0] == '/'
}

impl Source {
    /// This source as written from `from`, written from `to` instead: a local directory, or a
    /// local repository, relative to `to`; unchanged when it is absolute or remote.
    pub fn rebased(self, from: &str, to: &str) -> (r: Source)
        ensures
            match self {
                Source::Dir(d) => match r {
                    Source::Dir(e) => if absolute(d@) {
                        e@ == d@
                    } else {
                        e@ == relative_of(joined_components(from@, d@), components(to@))
                    },
                    _ => false,
                },
                Source::Git { url, at, path } => match r {
                    Source::Git { url: u, at: a, path: p } => a == at && p == path && if !remote_url(url@)
                        && !absolute(url@) {
                        u@ == relative_of(joined_components(from@, url@), components(to@))
                    } else {
                        u@ == url@
                    },
                    _ => false,
                },
            },
    {
        match self {
            Source::Dir(d) => {
                let chars = chars_of(d.as_str());
                if chars.len() > 0 && chars[0] == '/' {
                    Source::Dir(d)
                } else {
                    let cs = join_components(from, d.as_str());
                    Source::Dir(relative_path(&cs, &components_of(chars_of(to).as_slice())))
                }
            },
            Source::Git { url, at, path } => {
                let chars = chars_of(url.as_str());
                if !remote(url.as_str()) && !(chars.len() > 0 && chars[0] == '/') {
                    let cs = join_components(from, url.as_str());
                    let url = relative_path(&cs, &components_of(chars_of(to).as_slice()));
                    Source::Git { url, at, path }
                } else {
                    Source::Git { url, at, path }
                }
            },
        }
    }
}

} // verus!
