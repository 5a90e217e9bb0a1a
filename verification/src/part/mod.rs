//! Parts of a file: the keys, or the marked block, one profile owns in a file the target otherwise
//! owns.

use vstd::prelude::*;

pub mod block;
pub mod keys;

verus! {

/// How much of a file a profile owns.
#[derive(Clone, Copy, Debug, PartialEq, Eq, PartialOrd, Ord, Hash, Structural)]
pub enum Scope {
    /// The whole file.
    File,
    /// Every leaf the payload, a partial document, defines; the file's other keys are the target's.
    Keys,
    /// One comment-marked block, named after the profile; the file's other lines are the target's.
    Block,
}

impl Scope {
    /// As written: `file`, `keys` or `block`.
    pub open spec fn word(self) -> Seq<char> {
        match self {
            Scope::File => "file"@,
            Scope::Keys => "keys"@,
            Scope::Block => "block"@,
        }
    }

    /// As written: `file`, `keys` or `block`.
    pub fn as_str(self) -> (r: &'static str)
        ensures
            r@ == self.word(),
    {
        match self {
            Scope::File => "file",
            Scope::Keys => "keys",
            Scope::Block => "block",
        }
    }
}

/// Where a managed thing lives: a whole file, or one profile's part of it.
#[derive(Debug, PartialEq, Eq, PartialOrd, Ord, Hash)]
pub struct Slot {
    /// The file.
    pub path: crate::path::RelPath,
    /// The profile whose part it is; `None` for the whole file.
    pub part: Option<String>,
}

impl Slot {
    /// The whole of `path`.
    pub fn whole(path: crate::path::RelPath) -> (s: Slot)
        ensures
            s.path == path,
            s.part is None,
    {
        Slot { path, part: None }
    }
}

impl Clone for Slot {
    fn clone(&self) -> (out: Self)
        ensures
            out == *self,
    {
        Slot {
            path: self.path.clone(),
            part: match &self.part {
                Some(p) => Some(p.clone()),
                None => None,
            },
        }
    }
}

/// A structured format whose keys a profile can own.
#[derive(Clone, Copy, Debug, PartialEq, Eq, Structural)]
pub enum Syntax {
    /// TOML.
    Toml,
    /// JSON and JSONC.
    Json,
    /// YAML; experimental.
    Yaml,
}

/// The syntax of `format`, if it is a structured one.
pub open spec fn syntax_of(format: crate::format::Format) -> Option<Syntax> {
    match format {
        crate::format::Format::Toml => Some(Syntax::Toml),
        crate::format::Format::Json => Some(Syntax::Json),
        crate::format::Format::Yaml => Some(Syntax::Yaml),
        crate::format::Format::Unchecked => None,
    }
}

impl Syntax {
    /// The syntax of `format`, if it is a structured one.
    pub fn of(format: crate::format::Format) -> (r: Option<Syntax>)
        ensures
            r == syntax_of(format),
    {
        match format {
            crate::format::Format::Toml => Some(Syntax::Toml),
            crate::format::Format::Json => Some(Syntax::Json),
            crate::format::Format::Yaml => Some(Syntax::Yaml),
            crate::format::Format::Unchecked => None,
        }
    }
}

/// How one profile's part of a file is found, read and written.
#[derive(Debug)]
pub enum Shape {
    /// The leaves of a partial document.
    Keys(Syntax),
    /// The lines between two markers.
    Block(block::Markers),
}

/// A shape, as values: a syntax, or a block's two marker lines.
pub open spec fn shape_view(s: Shape) -> Result<Syntax, (Seq<char>, Seq<char>)> {
    match s {
        Shape::Keys(syntax) => Ok(syntax),
        Shape::Block(m) => Err((m.open_spec(), m.close_spec())),
    }
}

/// Why `owner`'s part of `path` under `scope`, read as `format` with `comment` given, has no
/// shape: [`ProfileError::NoKeys`](crate::errors::ProfileError::NoKeys) when keys are owned in
/// an unstructured format, [`ProfileError::NoComment`](crate::errors::ProfileError::NoComment)
/// when a block's comment syntax is neither given nor known; else its shape, `None` for the
/// whole file.
pub open spec fn shape_of(
    scope: Scope,
    path: crate::path::RelPath,
    format: crate::format::Format,
    comment: Option<block::Comment>,
    owner: Seq<char>,
) -> Result<Option<Result<Syntax, (Seq<char>, Seq<char>)>>, bool> {
    match scope {
        Scope::File => Ok(None),
        Scope::Keys => match syntax_of(format) {
            Some(syntax) => Ok(Some(Ok(syntax))),
            None => Err(true),
        },
        Scope::Block => match comment {
            Some(c) => Ok(Some(Err(block::markers_of(c, owner)))),
            None => match block::comment_of(crate::path::file_name_of(path@)) {
                Some(c) => Ok(Some(Err(block::markers_of(c, owner)))),
                None => Err(false),
            },
        },
    }
}

impl Shape {
    /// The shape of `owner`'s part of `path` under `scope`, read as `format`; `None` for the
    /// whole file.
    ///
    /// Fails with `NoKeys` when keys are owned in a format that is not TOML, JSON or YAML, and
    /// with `NoComment` when devset knows no comment syntax for `path` and none is given.
    pub fn of(
        scope: Scope,
        path: &crate::path::RelPath,
        format: crate::format::Format,
        comment: Option<block::Comment>,
        owner: &str,
    ) -> (r: Result<Option<Shape>, crate::errors::ProfileError>)
        ensures
            match r {
                Ok(None) => shape_of(scope, *path, format, comment, owner@) == Ok::<_, bool>(None::<Result<Syntax, (Seq<char>, Seq<char>)>>),
                Ok(Some(s)) => shape_of(scope, *path, format, comment, owner@) == Ok::<_, bool>(Some(shape_view(s))),
                Err(crate::errors::ProfileError::NoKeys { path: p }) => p == *path && shape_of(scope, *path, format, comment, owner@) == Err::<Option<Result<Syntax, (Seq<char>, Seq<char>)>>, bool>(true),
                Err(crate::errors::ProfileError::NoComment { path: p }) => p == *path && shape_of(scope, *path, format, comment, owner@) == Err::<Option<Result<Syntax, (Seq<char>, Seq<char>)>>, bool>(false),
                Err(_) => false,
            },
    {
        match scope {
            Scope::File => Ok(None),
            Scope::Keys => match Syntax::of(format) {
                Some(syntax) => Ok(Some(Shape::Keys(syntax))),
                None => Err(crate::errors::ProfileError::NoKeys { path: path.clone() }),
            },
            Scope::Block => {
                let comment = match comment {
                    Some(c) => c,
                    None => match block::comment(path) {
                        Some(c) => c,
                        None => return Err(crate::errors::ProfileError::NoComment { path: path.clone() }),
                    },
                };
                Ok(Some(Shape::Block(block::Markers::new(comment, owner))))
            },
        }
    }
}

} // verus!
