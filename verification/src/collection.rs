//! A source's profiles, found by name wherever they are in it, and what `collection.toml` says of
//! the source.
//!
//! Every `profile.toml` in a source is a profile, named by its `[profile] name`, unless it lies in
//! another profile's `files/`, where it is that profile's payload. Names are unique in a source, so
//! moving a profile within one breaks no target.

use vstd::prelude::*;

use crate::errors::ProfileError;
use crate::name::{ProfileName, SourceName};
use crate::order::{sort_texts, text_order, texts};
use crate::path::{PathError, RelPath, path_rule};
use crate::source::Source;
use crate::text::{cat, chars_of, starts, starts_with};

verus! {

/// `collection.toml`: what a source says of itself.
#[derive(Debug)]
pub struct CollectionFile {
    /// The `[collection]` table.
    pub collection: CollectionMeta,
}

/// The `[collection]` table.
#[derive(Debug)]
pub struct CollectionMeta {
    /// The name a target gives the source unless it chooses another.
    pub name: SourceName,
    /// One line for humans.
    pub description: Option<String>,
}

/// `files`, the directory holding a profile's payload.
pub open spec fn payload_dir() -> Seq<char> {
    seq!['f', 'i', 'l', 'e', 's']
}

/// What every path in the payload of the profile in `dir` begins with: `files/`, or
/// `dir/files/`.
pub open spec fn payload_prefix(dir: Seq<char>) -> Seq<char> {
    if dir.len() == 0 {
        payload_dir().push('/')
    } else {
        dir.push('/') + payload_dir().push('/')
    }
}

/// Of `dirs`, in order, those that lie in no payload of one kept before them.
pub open spec fn kept_of(dirs: Seq<Seq<char>>) -> Seq<Seq<char>>
    decreases dirs.len(),
{
    if dirs.len() == 0 {
        Seq::empty()
    } else {
        let kept = kept_of(dirs.drop_last());
        if exists|j: int| 0 <= j < kept.len() && starts(dirs.last(), payload_prefix(#[trigger] kept[j])) {
            kept
        } else {
            kept.push(dirs.last())
        }
    }
}

/// `payload_prefix(dir)`.
fn payload_of(dir: &str) -> (out: Vec<char>)
    ensures
        out@ == payload_prefix(dir@),
{
    let mut out = chars_of(dir);
    if out.len() > 0 {
        out.push('/');
    }
    out.push('f');
    out.push('i');
    out.push('l');
    out.push('e');
    out.push('s');
    out.push('/');
    proof {
        if dir@.len() > 0 {
            assert(out@ =~= dir@.push('/') + payload_dir().push('/'));
        } else {
            assert(out@ =~= payload_dir().push('/'));
        }
    }
    out
}

/// Of `dirs`, every one holding a `profile.toml`, those that are profiles: not in another's
/// `files/`; in text order.
pub fn profiles(dirs: Vec<String>) -> (out: Vec<String>)
    ensures
        texts(out@) == kept_of(texts(dirs@).sort_by(text_order())),
{
    let dirs = sort_texts(dirs);
    let ghost sorted = texts(dirs@);
    let mut kept: Vec<String> = Vec::new();
    let mut i: usize = 0;
    while i < dirs.len()
        invariant
            i <= dirs@.len(),
            sorted == texts(dirs@),
            texts(kept@) == kept_of(sorted.take(i as int)),
        decreases dirs@.len() - i,
    {
        let dir = chars_of(dirs[i].as_str());
        let ghost k = texts(kept@);
        let mut payload = false;
        let mut j: usize = 0;
        while j < kept.len()
            invariant
                j <= kept@.len(),
                k == texts(kept@),
                dir@ == dirs@[i as int]@,
                payload <==> exists|m: int| 0 <= m < j && starts(dir@, payload_prefix(#[trigger] k[m])),
            decreases kept@.len() - j,
        {
            let prefix = payload_of(kept[j].as_str());
            assert(k[j as int] == kept@[j as int]@);
            if starts_with(&dir, &prefix) {
                payload = true;
            }
            j += 1;
        }
        proof {
            assert(sorted.take(i + 1).drop_last() == sorted.take(i as int));
            assert(sorted.take(i + 1).last() == dir@);
        }
        if !payload {
            kept.push(dirs[i].clone());
            assert(texts(kept@) =~= k.push(dir@));
        }
        i += 1;
    }
    assert(sorted.take(dirs@.len() as int) == sorted);
    kept
}

/// `profile.toml`, a profile's manifest.
pub open spec fn manifest_name() -> Seq<char> {
    seq!['p', 'r', 'o', 'f', 'i', 'l', 'e', '.', 't', 'o', 'm', 'l']
}

/// The manifest of the profile in `dir`: `profile.toml` there.
pub open spec fn manifest_path(dir: Seq<char>) -> Seq<char> {
    if dir.len() == 0 {
        manifest_name()
    } else {
        dir.push('/') + manifest_name()
    }
}

/// The manifest of the profile in `dir`, as a path; an error when `dir` is no path.
pub fn manifest(dir: &str) -> (r: Result<RelPath, PathError>)
    ensures
        match r {
            Ok(p) => p@ == manifest_path(dir@) && path_rule(manifest_path(dir@)) is None,
            Err(e) => e.path@ == manifest_path(dir@) && path_rule(manifest_path(dir@)) == Some(e.rule),
        },
{
    proof {
        reveal_strlit("profile.toml");
        reveal_strlit("/profile.toml");
    }
    if chars_of(dir).len() == 0 {
        assert("profile.toml"@ =~= manifest_name());
        RelPath::new("profile.toml")
    } else {
        let path = cat(dir, "/profile.toml");
        assert(path@ =~= dir@.push('/') + manifest_name());
        RelPath::new(path.as_str())
    }
}

/// `dir` and `file` joined as a path joins them: `file` alone when `dir` is empty, one `/`
/// between them unless `dir` ends in one; `file` itself when absolute.
pub open spec fn join_path(dir: Seq<char>, file: Seq<char>) -> Seq<char> {
    if file.len() > 0 && file[0] == '/' {
        file
    } else if dir.len() == 0 || dir.last() == '/' {
        dir + file
    } else {
        dir.push('/') + file
    }
}

/// `dir` and `file` joined as a path joins them.
pub fn join(dir: &str, file: &str) -> (out: String)
    ensures
        out@ == join_path(dir@, file@),
{
    let d = chars_of(dir);
    let f = chars_of(file);
    proof {
        reveal_strlit("/");
    }
    if f.len() > 0 && f[0] == '/' {
        file.to_owned()
    } else if d.len() == 0 || d[d.len() - 1] == '/' {
        cat(dir, file)
    } else {
        let out = cat(dir, "/");
        assert(out@ =~= dir@.push('/'));
        cat(out.as_str(), file)
    }
}

/// Where `file`, relative to the root of `source`, is, as users recognise it: joined to a
/// directory, or after a repository's URL and the profile's directory in it.
pub open spec fn label_of(source: Source, file: Seq<char>) -> Seq<char> {
    match source {
        Source::Dir(dir) => join_path(dir@, file),
        Source::Git { url, path, .. } => match path {
            None => url@.push('/') + file,
            Some(p) => url@.push('/') + p@.push('/') + file,
        },
    }
}

/// Where `file`, relative to the root of `source`, is, as users recognise it.
pub fn label(source: &Source, file: &str) -> (out: String)
    ensures
        out@ == label_of(*source, file@),
{
    proof {
        reveal_strlit("/");
    }
    match source {
        Source::Dir(dir) => join(dir.as_str(), file),
        Source::Git { url, path, .. } => {
            let out = cat(url.as_str(), "/");
            assert(out@ =~= url@.push('/'));
            match path {
                None => cat(out.as_str(), file),
                Some(p) => {
                    let out = cat(out.as_str(), p.as_str());
                    let out = cat(out.as_str(), "/");
                    assert(out@ =~= url@.push('/') + p@.push('/'));
                    cat(out.as_str(), file)
                },
            }
        },
    }
}

/// Whether `name` is the name of one of `entries`.
pub open spec fn indexed(entries: Seq<(ProfileName, String)>, name: Seq<char>) -> bool {
    exists|i: int| 0 <= i < entries.len() && (#[trigger] entries[i]).0@ == name
}

/// A source's profiles by name, each with its directory in the source.
#[derive(Debug)]
pub struct Index {
    /// What `collection.toml` says, if the source has one.
    pub meta: Option<CollectionMeta>,
    /// Each profile and its directory, relative to the source's root, `""` for the root; no
    /// name twice.
    pub entries: Vec<(ProfileName, String)>,
}

impl Index {
    /// The profiles and their directories, in the order they were found.
    pub open spec fn entries(&self) -> Seq<(ProfileName, String)> {
        self.entries@
    }

    /// Whether no name is given twice.
    pub open spec fn wf(&self) -> bool {
        forall|a: int, b: int|
            0 <= a < b < self.entries().len() ==> (#[trigger] self.entries()[a]).0@ != (
            #[trigger] self.entries()[b]).0@
    }

    /// The index of `found`, each profile's directory and its name, in order; `location` names
    /// the source in messages.
    ///
    /// Fails with the first name given twice, and the directories of both.
    pub fn new(meta: Option<CollectionMeta>, found: Vec<(String, ProfileName)>, location: &str) -> (r: Result<Index, ProfileError>)
        ensures
            match r {
                Ok(index) => index.wf() && index.meta == meta && index.entries().len() == found@.len()
                    && forall|i: int| 0 <= i < found@.len() ==> (#[trigger] index.entries()[i]).0@
                    == found@[i].1@ && index.entries()[i].1@ == found@[i].0@,
                Err(ProfileError::SameNameInSource { location: l, name, first, second }) => l@
                    == location@ && exists|a: int, b: int|
                    0 <= a < b < found@.len() && found@[a].1@ == found@[b].1@ && name@ == found@[b].1@
                        && first@ == found@[a].0@ && second@ == found@[b].0@ && forall|c: int, d: int|
                        0 <= c < d < b ==> (#[trigger] found@[c]).1@ != (#[trigger] found@[d]).1@,
                Err(_) => false,
            },
    {
        let mut entries: Vec<(ProfileName, String)> = Vec::new();
        let mut i: usize = 0;
        while i < found.len()
            invariant
                i <= found@.len(),
                entries@.len() == i,
                forall|k: int| 0 <= k < i ==> (#[trigger] entries@[k]).0@ == found@[k].1@
                    && entries@[k].1@ == found@[k].0@,
                forall|c: int, d: int| 0 <= c < d < i ==> (#[trigger] found@[c]).1@ != (#[trigger] found@[d]).1@,
            decreases found@.len() - i,
        {
            let mut j: usize = 0;
            while j < i
                invariant
                    j <= i,
                    i < found@.len(),
                    entries@.len() == i,
                    forall|k: int| 0 <= k < i ==> (#[trigger] entries@[k]).0@ == found@[k].1@
                        && entries@[k].1@ == found@[k].0@,
                    forall|k: int| 0 <= k < j ==> (#[trigger] found@[k]).1@ != found@[i as int].1@,
                    forall|c: int, d: int| 0 <= c < d < i ==> (#[trigger] found@[c]).1@ != (#[trigger] found@[d]).1@,
                decreases i - j,
            {
                if entries[j].0.same(&found[i].1) {
                    assert(found@[j as int].1@ == found@[i as int].1@);
                    let ghost (a, b) = (j as int, i as int);
                    let name = found[i].1.clone();
                    let first = entries[j].1.clone();
                    let second = found[i].0.clone();
                    assert(0 <= a < b < found@.len() && found@[a].1@ == found@[b].1@ && name@ == found@[b].1@
                        && first@ == found@[a].0@ && second@ == found@[b].0@ && forall|c: int, d: int|
                        0 <= c < d < b ==> (#[trigger] found@[c]).1@ != (#[trigger] found@[d]).1@);
                    return Err(ProfileError::SameNameInSource { location: location.to_owned(), name, first, second });
                }
                j += 1;
            }
            entries.push((found[i].1.clone(), found[i].0.clone()));
            i += 1;
        }
        Ok(Index { meta, entries })
    }

    /// Every profile's name, in text order.
    pub fn names(&self) -> (out: Vec<String>)
        ensures
            texts(out@) == self.entries().map_values(|e: (ProfileName, String)| e.0@).sort_by(text_order()),
    {
        let mut names: Vec<String> = Vec::new();
        let mut i: usize = 0;
        while i < self.entries.len()
            invariant
                i <= self.entries@.len(),
                texts(names@) == self.entries@.take(i as int).map_values(|e: (ProfileName, String)| e.0@),
            decreases self.entries@.len() - i,
        {
            let ghost before = texts(names@);
            names.push(self.entries[i].0.as_str().to_owned());
            i += 1;
            assert(self.entries@.take(i as int) == self.entries@.take(i - 1).push(self.entries@[i - 1]));
            assert(texts(names@) =~= before.push(self.entries@[i - 1].0@));
            assert(texts(names@) =~= self.entries@.take(i as int).map_values(|e: (ProfileName, String)| e.0@));
        }
        assert(self.entries@.take(self.entries@.len() as int) == self.entries@);
        sort_texts(names)
    }

    /// The directory of the profile named `name`; `None` when the source has none.
    pub fn find(&self, name: &ProfileName) -> (r: Option<String>)
        ensures
            match r {
                Some(dir) => exists|i: int| 0 <= i < self.entries().len() && (#[trigger] self.entries()[i]).0@ == name@
                    && self.entries()[i].1@ == dir@,
                None => !indexed(self.entries(), name@),
            },
    {
        let mut i: usize = 0;
        while i < self.entries.len()
            invariant
                i <= self.entries@.len(),
                forall|k: int| 0 <= k < i ==> (#[trigger] self.entries@[k]).0@ != name@,
            decreases self.entries@.len() - i,
        {
            if self.entries[i].0.same(name) {
                assert(self.entries()[i as int].0@ == name@);
                return Some(self.entries[i].1.clone());
            }
            i += 1;
        }
        None
    }
}

} // verus!
