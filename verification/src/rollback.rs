//! Taking back an unfinished update, from what a commit saved beforehand.

use vstd::prelude::*;

use crate::digest::Digest;
use crate::merge::MergeError;
use crate::path::{RelPath, path_rule};
use crate::text::{cat, chars_of, slice_of, starts, starts_with, string_of};

verus! {

/// devset's own files an update may change, in the order they are restored; `state.toml` last,
/// so an interrupted rollback still describes the update and runs again.
pub open spec fn records() -> Seq<Seq<char>> {
    seq!["config.toml"@, "answers.toml"@, "lock.toml"@, "state.toml"@]
}

/// A file an unfinished update changed.
#[derive(Debug, PartialEq, Eq)]
pub enum Location {
    /// A managed file in the target.
    File(RelPath),
    /// A conflicted merge in `.devset/conflicts/`.
    Sidecar(RelPath),
    /// One of devset's own files in `.devset/`: `config.toml`, `answers.toml`, `lock.toml` or
    /// `state.toml`.
    Record(String),
}

/// `.devset/`.
pub open spec fn dir_prefix() -> Seq<char> {
    seq!['.', 'd', 'e', 'v', 's', 'e', 't', '/']
}

/// `conflicts/`.
pub open spec fn conflicts_prefix() -> Seq<char> {
    seq!['c', 'o', 'n', 'f', 'l', 'i', 'c', 't', 's', '/']
}

/// A location as written, relative to the target root.
pub open spec fn location_text(l: Location) -> Seq<char> {
    match l {
        Location::File(p) => p@,
        Location::Sidecar(p) => dir_prefix() + conflicts_prefix() + p@,
        Location::Record(name) => dir_prefix() + name@,
    }
}

/// A location, as values: its kind and its text.
pub open spec fn location_view(l: Location) -> (int, Seq<char>) {
    match l {
        Location::File(p) => (0, p@),
        Location::Sidecar(p) => (1, p@),
        Location::Record(name) => (2, name@),
    }
}

/// The location a key of `undo.toml` names, as values: under `.devset/`, a sidecar under
/// `conflicts/` or one of devset's own files; anything else, a managed path.
pub open spec fn parse_spec(key: Seq<char>) -> Option<(int, Seq<char>)> {
    if starts(key, dir_prefix()) {
        let inner = key.skip(8);
        if starts(inner, conflicts_prefix()) {
            let path = inner.skip(10);
            if path_rule(path) is None {
                Some((1, path))
            } else {
                None
            }
        } else if records().contains(inner) {
            Some((2, inner))
        } else {
            None
        }
    } else if path_rule(key) is None {
        Some((0, key))
    } else {
        None
    }
}

impl Location {
    /// The location `key`, a key of `undo.toml`, names, if it names one.
    pub fn parse(key: &str) -> (r: Option<Location>)
        ensures
            match r {
                Some(l) => parse_spec(key@) == Some(location_view(l)),
                None => parse_spec(key@) is None,
            },
    {
        let chars = chars_of(key);
        let dir = chars_of(".devset/");
        let conflicts = chars_of("conflicts/");
        proof {
            reveal_strlit(".devset/");
            reveal_strlit("conflicts/");
        }
        assert(dir@ =~= dir_prefix());
        assert(conflicts@ =~= conflicts_prefix());
        if !starts_with(&chars, &dir) {
            return match RelPath::new(key) {
                Ok(p) => Some(Location::File(p)),
                Err(_) => None,
            };
        }
        let inner = slice_of(&chars, 8, chars.len());
        assert(inner@ == key@.skip(8));
        if starts_with(&inner, &conflicts) {
            let path = string_of(&slice_of(&inner, 10, inner.len()));
            assert(path@ == key@.skip(8).skip(10));
            return match RelPath::new(path.as_str()) {
                Ok(p) => Some(Location::Sidecar(p)),
                Err(_) => None,
            };
        }
        let names = ["config.toml", "answers.toml", "lock.toml", "state.toml"];
        let mut k: usize = 0;
        while k < 4
            invariant
                k <= 4,
                names@.len() == 4,
                names@[0]@ == "config.toml"@ && names@[1]@ == "answers.toml"@ && names@[2]@ == "lock.toml"@
                    && names@[3]@ == "state.toml"@,
                inner@ == key@.skip(8),
                starts(key@, dir_prefix()),
                !starts(inner@, conflicts_prefix()),
                forall|j: int| 0 <= j < k ==> records()[j] != inner@,
            decreases 4 - k,
        {
            if crate::text::same(&inner, &chars_of(names[k])) {
                proof {
                    assert(records()[k as int] == inner@);
                }
                return Some(Location::Record(string_of(&inner)));
            }
            k += 1;
        }
        proof {
            if records().contains(inner@) {
                let j = choose|j: int| 0 <= j < records().len() && records()[j] == inner@;
            }
        }
        None
    }

    /// The location as written, relative to the target root.
    pub fn to_string(&self) -> (r: String)
        ensures
            r@ == location_text(*self),
    {
        proof {
            reveal_strlit(".devset/");
            reveal_strlit(".devset/conflicts/");
        }
        match self {
            Location::File(p) => p.as_str().to_owned(),
            Location::Sidecar(p) => {
                let out = cat(".devset/conflicts/", p.as_str());
                assert(".devset/conflicts/"@ =~= dir_prefix() + conflicts_prefix());
                out
            },
            Location::Record(name) => {
                assert(".devset/"@ =~= dir_prefix());
                cat(".devset/", name.as_str())
            },
        }
    }
}

/// Whether `l` is one a commit records: a managed path that does not lie in `.devset/`, a
/// sidecar, or one of devset's own files.
pub open spec fn location_wf(l: Location) -> bool {
    match l {
        Location::File(p) => path_rule(p@) is None && !starts(p@, dir_prefix()),
        Location::Sidecar(p) => path_rule(p@) is None,
        Location::Record(name) => records().contains(name@),
    }
}

/// A location reads back from the key it is written as.
pub proof fn locations_round_trip(l: Location)
    requires
        location_wf(l),
    ensures
        parse_spec(location_text(l)) == Some(location_view(l)),
{
    match l {
        Location::File(p) => {},
        Location::Sidecar(p) => {
            let key = location_text(l);
            assert(key.take(8) =~= dir_prefix());
            assert(key.skip(8) =~= conflicts_prefix() + p@);
            assert(key.skip(8).take(10) =~= conflicts_prefix());
            assert(key.skip(8).skip(10) =~= p@);
        },
        Location::Record(name) => {
            let key = location_text(l);
            assert(key.take(8) =~= dir_prefix());
            assert(key.skip(8) =~= name@);
            let j = choose|j: int| 0 <= j < records().len() && records()[j] == name@;
            reveal_strlit("config.toml");
            reveal_strlit("answers.toml");
            reveal_strlit("lock.toml");
            reveal_strlit("state.toml");
            assert(!starts(name@, conflicts_prefix())) by {
                if starts(name@, conflicts_prefix()) {
                    assert(name@[0] == 'c' && name@[1] == 'o' && name@[2] == 'n');
                }
            }
        },
    }
}

/// What taking a target file back does.
#[derive(Debug, PartialEq, Eq)]
pub enum Revert {
    /// Puts back the bytes it held before the update.
    Restore(RelPath),
    /// Removes it: the update created it.
    Remove(RelPath),
}

/// One file's change: the digest of what it held before the update, and of what the update left
/// in it; `None` where there was no file.
#[derive(Debug)]
pub struct Change {
    /// Before.
    pub before: Option<Digest>,
    /// After.
    pub after: Option<Digest>,
}

/// A digest, if any, as bytes.
pub open spec fn digest_view(d: Option<Digest>) -> Option<Seq<u8>> {
    match d {
        Some(d) => Some(d@),
        None => None,
    }
}

/// Whether two optional digests are one.
fn same_digest(a: &Option<Digest>, b: &Option<Digest>) -> (r: bool)
    ensures
        r == (digest_view(*a) == digest_view(*b)),
{
    match (a, b) {
        (Some(a), Some(b)) => a.same(b),
        (None, None) => true,
        _ => false,
    }
}

/// Whether the change at `i` is still to be taken back: the file is not as it was before.
pub open spec fn pending(changes: Seq<(Location, Change)>, now: Seq<Option<Digest>>, i: int) -> bool {
    digest_view(now[i]) != digest_view(changes[i].1.before)
}

/// What taking `changes` back does to target files, in order, each file's digest being `now`:
/// a file no longer as before is restored, or removed where the update created it; one already
/// as before is left.
pub open spec fn reverts_of(changes: Seq<(Location, Change)>, now: Seq<Option<Digest>>) -> Seq<(bool, Seq<char>)>
    decreases changes.len(),
{
    if changes.len() == 0 || now.len() != changes.len() {
        Seq::empty()
    } else {
        let rest = reverts_of(changes.drop_last(), now.drop_last());
        let i = changes.len() - 1;
        match changes[i].0 {
            Location::File(p) => if pending(changes, now, i) {
                rest.push((changes[i].1.before is Some, p@))
            } else {
                rest
            },
            _ => rest,
        }
    }
}

/// The files changed since the update, which taking it back would discard: each neither as
/// before nor as the update left it.
pub open spec fn changed_of(changes: Seq<(Location, Change)>, now: Seq<Option<Digest>>) -> Seq<Seq<char>>
    decreases changes.len(),
{
    if changes.len() == 0 || now.len() != changes.len() {
        Seq::empty()
    } else {
        let rest = changed_of(changes.drop_last(), now.drop_last());
        let i = changes.len() - 1;
        if pending(changes, now, i) && digest_view(now[i]) != digest_view(changes[i].1.after) {
            rest.push(location_text(changes[i].0))
        } else {
            rest
        }
    }
}

/// A revert, as values: whether it restores, and the file.
pub open spec fn revert_view(r: Revert) -> (bool, Seq<char>) {
    match r {
        Revert::Restore(p) => (true, p@),
        Revert::Remove(p) => (false, p@),
    }
}

/// What taking back `changes`, each file's digest now being `now`, does to target files, and
/// the files changed since the update.
pub fn reverts(changes: &Vec<(Location, Change)>, now: &Vec<Option<Digest>>) -> (r: (Vec<Revert>, Vec<String>))
    requires
        now@.len() == changes@.len(),
    ensures
        r.0@.map_values(|x: Revert| revert_view(x)) == reverts_of(changes@, now@),
        crate::text::views(r.1@) == changed_of(changes@, now@),
{
    let mut reverts: Vec<Revert> = Vec::new();
    let mut changed: Vec<String> = Vec::new();
    let mut i: usize = 0;
    while i < changes.len()
        invariant
            i <= changes@.len(),
            now@.len() == changes@.len(),
            reverts@.map_values(|x: Revert| revert_view(x)) == reverts_of(changes@.take(i as int), now@.take(i as int)),
            crate::text::views(changed@) == changed_of(changes@.take(i as int), now@.take(i as int)),
        decreases changes@.len() - i,
    {
        let (location, change) = (&changes[i].0, &changes[i].1);
        let ghost (c, n) = (changes@.take(i + 1), now@.take(i + 1));
        proof {
            assert(c.drop_last() == changes@.take(i as int));
            assert(n.drop_last() == now@.take(i as int));
            assert(c[i as int] == changes@[i as int] && n[i as int] == now@[i as int]);
        }
        if !same_digest(&now[i], &change.before) {
            if !same_digest(&now[i], &change.after) {
                let ghost before = crate::text::views(changed@);
                changed.push(location.to_string());
                assert(crate::text::views(changed@) =~= before.push(location_text(changes@[i as int].0)));
            }
            if let Location::File(path) = location {
                let ghost before = reverts@.map_values(|x: Revert| revert_view(x));
                reverts.push(match change.before {
                    Some(_) => Revert::Restore(path.clone()),
                    None => Revert::Remove(path.clone()),
                });
                assert(reverts@.map_values(|x: Revert| revert_view(x)) =~= before.push((change.before is Some, path@)));
            }
        }
        i += 1;
    }
    assert(changes@.take(changes@.len() as int) == changes@);
    assert(now@.take(now@.len() as int) == now@);
    (reverts, changed)
}

/// Whether a rollback may go ahead: unless `force`, only when nothing changed since the update.
///
/// Fails with [`MergeError::ChangedSince`], naming every changed file.
pub fn may_apply(changed: Vec<String>, force: bool) -> (r: Result<(), MergeError>)
    ensures
        match r {
            Ok(()) => force || changed@.len() == 0,
            Err(MergeError::ChangedSince { paths }) => !force && changed@.len() > 0 && paths@ == changed@,
            Err(_) => false,
        },
{
    if !force && changed.len() > 0 {
        return Err(MergeError::ChangedSince { paths: changed });
    }
    Ok(())
}

/// Where `l` goes in the order a rollback restores in: files and sidecars first, as they come;
/// then devset's own files, `state.toml` last.
pub open spec fn restore_rank(l: Location) -> int {
    match l {
        Location::Record(name) => if name@ == records()[0] {
            1
        } else if name@ == records()[1] {
            2
        } else if name@ == records()[2] {
            3
        } else {
            4
        },
        _ => 0,
    }
}

/// Where `l` goes in the order a rollback restores in.
pub fn rank(l: &Location) -> (r: u8)
    ensures
        r as int == restore_rank(*l),
{
    proof {
        reveal_strlit("config.toml");
        reveal_strlit("answers.toml");
        reveal_strlit("lock.toml");
    }
    match l {
        Location::Record(name) => {
            let chars = chars_of(name.as_str());
            if crate::text::same(&chars, &chars_of("config.toml")) {
                1
            } else if crate::text::same(&chars, &chars_of("answers.toml")) {
                2
            } else if crate::text::same(&chars, &chars_of("lock.toml")) {
                3
            } else {
                4
            }
        },
        _ => 0,
    }
}

} // verus!
