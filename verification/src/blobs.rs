//! Which blobs of a commit hold a profile's files.

use vstd::prelude::*;

use crate::git::Blob;
use crate::path::RelPath;
use crate::source::{Oid, SourceError};
use crate::text::{cat, chars_of};

verus! {

/// What a profile's files are looked up under in a commit: its directory in the repository,
/// then its directory in the source, each that is not empty followed by `/`.
pub open spec fn blob_prefix(dir: Option<Seq<char>>, sub: Seq<char>) -> Seq<char> {
    (match dir {
        Some(d) => if d.len() > 0 {
            d + "/"@
        } else {
            Seq::empty()
        },
        None => Seq::empty(),
    }) + if sub.len() > 0 {
        sub + "/"@
    } else {
        Seq::empty()
    }
}

/// The first file of `files` at `key`, as its id and whether it is a regular file.
pub open spec fn blob_at(files: Seq<(String, Blob)>, key: Seq<char>) -> Option<(Seq<char>, bool)>
    decreases files.len(),
{
    if files.len() == 0 {
        None
    } else if files[0].0@ == key {
        Some((files[0].1.id@, files[0].1.regular))
    } else {
        blob_at(files.drop_first(), key)
    }
}

/// The blobs to read for `paths` under `prefix`, each path the commit holds with its id, in
/// order; or the first path that is not a regular file, under its key.
pub open spec fn wanted_of_paths(prefix: Seq<char>, files: Seq<(String, Blob)>, paths: Seq<Seq<char>>) -> Result<Seq<(Seq<char>, Seq<char>)>, Seq<char>>
    decreases paths.len(),
{
    if paths.len() == 0 {
        Ok(Seq::empty())
    } else {
        match wanted_of_paths(prefix, files, paths.drop_last()) {
            Err(key) => Err(key),
            Ok(found) => match blob_at(files, prefix + paths.last()) {
                None => Ok(found),
                Some((id, true)) => Ok(found.push((paths.last(), id))),
                Some((_, false)) => Err(prefix + paths.last()),
            },
        }
    }
}

/// The file at `key` among `files`: its first.
fn find_blob(files: &Vec<(String, Blob)>, key: &str) -> (r: Option<usize>)
    ensures
        match r {
            Some(k) => k < files@.len() && blob_at(files@, key@) == Some((files@[k as int].1.id@, files@[k as int].1.regular)),
            None => blob_at(files@, key@) is None,
        },
{
    let ghost all = files@;
    let mut k: usize = 0;
    assert(all.skip(0) =~= all);
    while k < files.len()
        invariant
            k <= files@.len(),
            all == files@,
            blob_at(all.skip(k as int), key@) == blob_at(all, key@),
        decreases files@.len() - k,
    {
        assert(all.skip(k as int)[0] == all[k as int]);
        if crate::text::same(&chars_of(files[k].0.as_str()), &chars_of(key)) {
            return Some(k);
        }
        assert(all.skip(k as int).drop_first() =~= all.skip(k + 1));
        k += 1;
    }
    None
}

/// Which blobs of a commit's `files` to read for the profile files `paths`, the profile being at
/// `dir` in the repository and `sub` in the source: each path the commit holds, with its id, in
/// order; refused, naming the file and the commit `rev`, when one is a symlink, a directory or
/// a submodule.
pub fn wanted_blobs(dir: Option<&RelPath>, sub: &str, files: &Vec<(String, Blob)>, paths: &[RelPath], rev: &Oid) -> (r: Result<Vec<(RelPath, String)>, SourceError>)
    ensures
        ({
            let prefix = blob_prefix(
                match dir {
                    Some(d) => Some(d@),
                    None => None,
                },
                sub@,
            );
            match wanted_of_paths(prefix, files@, paths@.map_values(|p: RelPath| p@)) {
                Ok(found) => r matches Ok(v) && v@.map_values(|w: (RelPath, String)| (w.0@, w.1@)) == found,
                Err(key) => r matches Err(SourceError::NotAFile { file }) && file@ == key + " @"@ + (if rev@.len() >= 7 {
                    rev@.take(7)
                } else {
                    rev@
                }),
            }
        }),
{
    let first = match dir {
        Some(d) => if chars_of(d.as_str()).len() > 0 {
            cat(d.as_str(), "/")
        } else {
            String::new()
        },
        None => String::new(),
    };
    let second = if chars_of(sub).len() > 0 {
        cat(sub, "/")
    } else {
        String::new()
    };
    let prefix = cat(first.as_str(), second.as_str());
    let ghost pv = paths@.map_values(|p: RelPath| p@);
    proof {
        let d = match dir {
            Some(d) => Some(d@),
            None => None,
        };
        assert(prefix@ =~= blob_prefix(d, sub@));
    }
    let mut out: Vec<(RelPath, String)> = Vec::new();
    assert(pv.take(0) =~= Seq::<Seq<char>>::empty());
    assert(out@.map_values(|w: (RelPath, String)| (w.0@, w.1@)) =~= Seq::<(Seq<char>, Seq<char>)>::empty());
    let mut i: usize = 0;
    while i < paths.len()
        invariant
            i <= paths@.len(),
            pv == paths@.map_values(|p: RelPath| p@),
            prefix@ == blob_prefix(
                match dir {
                    Some(d) => Some(d@),
                    None => None,
                },
                sub@,
            ),
            wanted_of_paths(prefix@, files@, pv.take(i as int)) == Ok::<Seq<(Seq<char>, Seq<char>)>, Seq<char>>(out@.map_values(|w: (RelPath, String)| (w.0@, w.1@))),
        decreases paths@.len() - i,
    {
        let key = cat(prefix.as_str(), paths[i].as_str());
        proof {
            assert(pv.take(i + 1).drop_last() =~= pv.take(i as int));
            assert(pv.take(i + 1).last() == paths@[i as int]@);
        }
        match find_blob(files, key.as_str()) {
            None => {},
            Some(k) => {
                if files[k].1.regular {
                    let ghost was = out@.map_values(|w: (RelPath, String)| (w.0@, w.1@));
                    out.push((paths[i].clone(), files[k].1.id.clone()));
                    assert(out@.map_values(|w: (RelPath, String)| (w.0@, w.1@)) =~= was.push((paths@[i as int]@, files@[k as int].1.id@)));
                } else {
                    proof {
                        assert(key@ == prefix@ + pv[i as int]);
                        assert(wanted_of_paths(prefix@, files@, pv.take(i + 1)) == Err::<Seq<(Seq<char>, Seq<char>)>, Seq<char>>(key@));
                        lemma_wanted_err(prefix@, files@, pv, i as int + 1);
                    }
                    let file = cat(cat(key.as_str(), " @").as_str(), rev.short().as_str());
                    return Err(SourceError::NotAFile { file });
                }
            },
        }
        i += 1;
    }
    assert(pv.take(i as int) =~= pv);
    Ok(out)
}

/// Once a prefix of the paths is refused, so are the paths.
proof fn lemma_wanted_err(prefix: Seq<char>, files: Seq<(String, Blob)>, paths: Seq<Seq<char>>, k: int)
    requires
        0 <= k <= paths.len(),
        wanted_of_paths(prefix, files, paths.take(k)) is Err,
    ensures
        wanted_of_paths(prefix, files, paths) == wanted_of_paths(prefix, files, paths.take(k)),
    decreases paths.len() - k,
{
    if k < paths.len() {
        assert(paths.take(k + 1).drop_last() =~= paths.take(k));
        lemma_wanted_err(prefix, files, paths, k + 1);
    } else {
        assert(paths.take(k) =~= paths);
    }
}

} // verus!
