//! Resolving a target's layers into one profile: each file has one provider, or one per part,
//! the target's overrides applied.

use vstd::prelude::*;

use crate::digest::Digest;
use crate::errors::{ProfileError, name_texts};
use crate::format::{Format, format_of};
use crate::gate::{Pattern, Reason};
use crate::graph::Enabler;
use crate::name::{FeatureName, ProfileName, ScaffoldName, SourceName};
use crate::part::{Scope, Shape, Slot, shape_of, shape_view};
use crate::path::{RelPath, file_name_of, fold_of};
use crate::profile::{FileSpec, Meta, Policy, policy_of};
use crate::settings::MergeSpec;
use crate::source::{Oid, Source};
use crate::target::Override;
use crate::errors::TargetError;
use crate::order::{lex_le, lemma_text_order_total, text_le, text_order};
use crate::text::{chars_of, first_set, lemma_least, lemma_least_found, least};
use crate::vars::{VarName, VarSpec};

verus! {

/// Which sources a resolution may move off their locked commit.
#[derive(Debug)]
pub enum Refresh {
    /// None: every source at its locked commit.
    Locked,
    /// Every source, to what its ref names now.
    All,
    /// The source with this name, or the one the layer with this name comes from.
    Only(String),
}

/// Whether a layer's content is what the lock recorded.
#[derive(Clone, Copy, Debug, PartialEq, Eq, Structural)]
pub enum Applied {
    /// It is.
    Current,
    /// Its source moved, its local directory changed, or an answer or the graph did, since it
    /// was applied.
    Changed,
    /// The layer has never been applied.
    Never,
}

/// One of a layer's files: its entry, where its payload is, and whether its gates let it apply.
#[derive(Debug)]
pub struct LayerFile {
    /// Its path as the profile wrote it: under `files/`, and before variables are answered.
    pub written: RelPath,
    /// Its entry.
    pub spec: FileSpec,
    /// The paths and globs of its `when.exists`, rendered.
    pub exists: Vec<Pattern>,
    /// Why it does not apply, when its `features`, `profiles` or `vars` say so.
    pub gated: Option<Reason>,
}

/// An active profile, read from its source at one revision, and rendered for the target.
#[derive(Debug)]
pub struct Layer {
    /// Where it came from.
    pub source: Source,
    /// The name the target gives its source; `None` for a source a profile requires by `git`.
    pub source_name: Option<SourceName>,
    /// Its directory in the source.
    pub dir: String,
    /// Its `[profile]` table.
    pub meta: Meta,
    /// Its `[merge]` table.
    pub merge: MergeSpec,
    /// Its variables.
    pub vars: Vec<(VarName, VarSpec)>,
    /// Every feature it declares.
    pub declared: Vec<FeatureName>,
    /// Every feature that is on, with who turned it on.
    pub features: Vec<(FeatureName, Vec<Enabler>)>,
    /// The profiles that require it.
    pub required_by: Vec<ProfileName>,
    /// Whether the target configures it as a layer.
    pub configured: bool,
    /// The commit, for a versioned source.
    pub rev: Option<Oid>,
    /// Digest of manifest, rendered payload and features together.
    pub digest: Digest,
    /// The digest the lock recorded for it.
    pub locked: Option<Digest>,
    /// Its scaffold groups: each group's sentinels, rendered.
    pub scaffolds: Vec<(ScaffoldName, Vec<Pattern>)>,
    /// Its files, by rendered path, each path once.
    pub files: Vec<(RelPath, LayerFile)>,
}

/// Whether a layer whose lock recorded `locked` and whose content is `digest` is applied.
pub open spec fn applied_of(locked: Option<Seq<u8>>, digest: Seq<u8>) -> Applied {
    match locked {
        None => Applied::Never,
        Some(l) => if l == digest {
            Applied::Current
        } else {
            Applied::Changed
        },
    }
}

impl Layer {
    /// Its profile's name, which names the layer.
    pub fn name(&self) -> (r: &ProfileName)
        ensures
            *r == self.meta.name,
    {
        &self.meta.name
    }

    /// `source/profile`, as the target names it; the profile's name for a source a profile
    /// requires by `git`.
    pub fn qualified(&self) -> (r: String)
        ensures
            r@ == match self.source_name {
                Some(s) => s@ + "/"@ + self.meta.name@,
                None => self.meta.name@,
            },
    {
        match &self.source_name {
            Some(source) => {
                let out = crate::text::cat(source.as_str(), "/");
                crate::text::cat(out.as_str(), self.meta.name.as_str())
            },
            None => self.meta.name.as_str().to_owned(),
        }
    }

    /// Whether this content is what the lock recorded.
    pub fn applied(&self) -> (r: Applied)
        ensures
            r == applied_of(
                match self.locked {
                    Some(d) => Some(d@),
                    None => None,
                },
                self.digest@,
            ),
    {
        match &self.locked {
            None => Applied::Never,
            Some(locked) => if locked.same(&self.digest) {
                Applied::Current
            } else {
                Applied::Changed
            },
        }
    }

    /// Where `path` is among its files.
    pub fn file_index(&self, path: &RelPath) -> (r: Option<usize>)
        ensures
            match r {
                Some(k) => k < self.files@.len() && self.files@[k as int].0@ == path@ && lists(*self, path@),
                None => !lists(*self, path@),
            },
    {
        let mut k: usize = 0;
        while k < self.files.len()
            invariant
                k <= self.files@.len(),
                forall|j: int| 0 <= j < k ==> (#[trigger] self.files@[j]).0@ != path@,
            decreases self.files@.len() - k,
        {
            if self.files[k].0.same(path) {
                return Some(k);
            }
            k += 1;
        }
        None
    }
}

/// Whether `layer` lists `path`.
pub open spec fn lists(layer: Layer, path: Seq<char>) -> bool {
    exists|k: int| 0 <= k < layer.files@.len() && (#[trigger] layer.files@[k]).0@ == path
}

/// How one layer owns a file, for [`share`].
#[derive(Debug)]
pub struct Claim {
    /// The layer.
    pub layer: ProfileName,
    /// How much of the file it owns.
    pub scope: Scope,
    /// How it manages it.
    pub policy: Policy,
    /// Whether it starts the file when the target has none.
    pub starts: bool,
}

/// Why layers may not share a file, as values.
pub enum ShareFault {
    /// Several own it whole.
    Collision(Seq<Seq<char>>),
    /// They own it in different scopes, or one owns it whole and is not `once`.
    Scopes(Seq<(Seq<char>, Scope)>),
    /// Several would start it.
    Starters(Seq<Seq<char>>),
}

/// A claim, as values: the layer's name, its scope, its policy, whether it starts the file.
pub type ClaimView = (Seq<char>, Scope, Policy, bool);

/// The layers of `claims` that own the file whole.
pub open spec fn wholes(claims: Seq<ClaimView>) -> Seq<Seq<char>> {
    claims.filter(|c: ClaimView| c.1 == Scope::File).map_values(|c: ClaimView| c.0)
}

/// The layers of `claims` that would start the file.
pub open spec fn starters(claims: Seq<ClaimView>) -> Seq<Seq<char>> {
    claims.filter(|c: ClaimView| c.3).map_values(|c: ClaimView| c.0)
}

/// Whether every part `claims` owns is in one scope.
pub open spec fn one_scope(claims: Seq<ClaimView>) -> bool {
    forall|i: int, j: int|
        0 <= i < claims.len() && 0 <= j < claims.len() && (#[trigger] claims[i]).1 != Scope::File
            && (#[trigger] claims[j]).1 != Scope::File ==> claims[i].1 == claims[j].1
}

/// Whether one of `claims` owns the file whole and is not `once`.
pub open spec fn owned(claims: Seq<ClaimView>) -> bool {
    exists|i: int| 0 <= i < claims.len() && (#[trigger] claims[i]).1 == Scope::File && claims[i].2 != Policy::Once
}

/// Why the layers `claims` names may not share a file: one of them provides it, or all own parts
/// of it in one scope, beside at most one starter; `None` when they may.
pub open spec fn share_fault(claims: Seq<ClaimView>) -> Option<ShareFault> {
    if claims.len() <= 1 {
        None
    } else if wholes(claims).len() > 1 {
        Some(ShareFault::Collision(wholes(claims)))
    } else if !one_scope(claims) || owned(claims) {
        Some(ShareFault::Scopes(claims.map_values(|c: ClaimView| (c.0, c.1))))
    } else if starters(claims).len() > 1 {
        Some(ShareFault::Starters(starters(claims)))
    } else {
        None
    }
}

/// The names of the claims `keep` picks, in order.
fn named(claims: &Vec<Claim>, whole: bool) -> (out: Vec<ProfileName>)
    ensures
        whole ==> name_texts(out@) == wholes(claims_view(claims@)),
        !whole ==> name_texts(out@) == starters(claims_view(claims@)),
{
    let ghost pick = if whole {
        |c: ClaimView| c.1 == Scope::File
    } else {
        |c: ClaimView| c.3
    };
    let ghost all = claims_view(claims@);
    let mut out: Vec<ProfileName> = Vec::new();
    let mut i: usize = 0;
    while i < claims.len()
        invariant
            i <= claims@.len(),
            pick == if whole {
                |c: ClaimView| c.1 == Scope::File
            } else {
                |c: ClaimView| c.3
            },
            all == claims_view(claims@),
            name_texts(out@) == all.take(i as int).filter(pick).map_values(|c: ClaimView| c.0),
        decreases claims@.len() - i,
    {
        proof {
            assert(all.take(i + 1).drop_last() == all.take(i as int));
            assert(all.take(i + 1).last() == all[i as int]);
            reveal(Seq::filter);
        }
        let keep = if whole {
            claims[i].scope == Scope::File
        } else {
            claims[i].starts
        };
        let ghost before = name_texts(out@);
        if keep {
            out.push(claims[i].layer.clone());
            assert(name_texts(out@) =~= before.push(claims@[i as int].layer@));
        }
        i += 1;
    }
    assert(all.take(claims@.len() as int) == all);
    out
}

/// The error `fault` is for `path`, as values.
pub open spec fn share_error(e: ProfileError, path: RelPath, fault: ShareFault) -> bool {
    match fault {
        ShareFault::Collision(layers) => e matches ProfileError::Collision { path: p, layers: l } && p == path
            && name_texts(l@) == layers,
        ShareFault::Scopes(layers) => e matches ProfileError::Scopes { path: p, layers: l } && p == path
            && l@.map_values(|c: (ProfileName, Scope)| (c.0@, c.1)) == layers,
        ShareFault::Starters(layers) => e matches ProfileError::Starters { path: p, layers: l } && p == path
            && name_texts(l@) == layers,
    }
}

/// Checks that the layers `claims` names may share `path`: one of them provides it, or all own
/// parts of it in one scope, beside at most one starter.
///
/// Fails with `Collision` when several own it whole; `Scopes` when they own it in different
/// scopes, or one owns it whole and is not `once`; `Starters` when several would start it.
pub fn share(path: &RelPath, claims: &Vec<Claim>) -> (r: Result<(), ProfileError>)
    ensures
        match r {
            Ok(()) => share_fault(claims_view(claims@)) is None,
            Err(e) => share_fault(claims_view(claims@)) matches Some(f) && share_error(e, *path, f),
        },
{
    if claims.len() <= 1 {
        return Ok(());
    }
    let whole = named(claims, true);
    if whole.len() > 1 {
        return Err(ProfileError::Collision { path: path.clone(), layers: whole });
    }
    let mut first: Option<Scope> = None;
    let mut same = true;
    let mut any_owned = false;
    let mut i: usize = 0;
    while i < claims.len()
        invariant
            i <= claims@.len(),
            match first {
                None => forall|k: int| 0 <= k < i ==> (#[trigger] claims@[k]).scope == Scope::File,
                Some(s) => s != Scope::File && exists|k: int| 0 <= k < i && (#[trigger] claims@[k]).scope == s,
            },
            same == forall|a: int, b: int|
                0 <= a < i && 0 <= b < i && (#[trigger] claims@[a]).scope != Scope::File
                    && (#[trigger] claims@[b]).scope != Scope::File ==> claims@[a].scope == claims@[b].scope,
            same ==> forall|k: int| 0 <= k < i && (#[trigger] claims@[k]).scope != Scope::File ==> first == Some(claims@[k].scope),
            any_owned == exists|k: int| 0 <= k < i && (#[trigger] claims@[k]).scope == Scope::File && claims@[k].policy != Policy::Once,
        decreases claims@.len() - i,
    {
        let c = &claims[i];
        if c.scope != Scope::File {
            match first {
                None => {
                    first = Some(c.scope);
                },
                Some(s) => if s != c.scope {
                    if same {
                        proof {
                            let k = choose|k: int| 0 <= k < i && (#[trigger] claims@[k]).scope == s;
                            assert(claims@[k].scope != claims@[i as int].scope);
                        }
                    }
                    same = false;
                },
            }
        } else if c.policy != Policy::Once {
            any_owned = true;
        }
        i += 1;
    }
    let ghost cv = claims_view(claims@);
    assert(one_scope(cv) == same) by {
        if !same {
            let (a, b) = choose|a: int, b: int| 0 <= a < claims@.len() && 0 <= b < claims@.len() && (#[trigger] claims@[a]).scope != Scope::File
                && (#[trigger] claims@[b]).scope != Scope::File && claims@[a].scope != claims@[b].scope;
            assert(cv[a].1 == claims@[a].scope && cv[b].1 == claims@[b].scope);
        } else {
            assert forall|a: int, b: int| 0 <= a < cv.len() && 0 <= b < cv.len() && (#[trigger] cv[a]).1 != Scope::File
                && (#[trigger] cv[b]).1 != Scope::File implies cv[a].1 == cv[b].1 by {
                assert(cv[a].1 == claims@[a].scope && cv[b].1 == claims@[b].scope);
            }
        }
    }
    assert(owned(cv) == any_owned) by {
        if any_owned {
            let k = choose|k: int| 0 <= k < claims@.len() && (#[trigger] claims@[k]).scope == Scope::File && claims@[k].policy != Policy::Once;
            assert(cv[k].1 == claims@[k].scope);
        }
        if owned(cv) {
            let k = choose|k: int| 0 <= k < cv.len() && (#[trigger] cv[k]).1 == Scope::File && cv[k].2 != Policy::Once;
            assert(cv[k].1 == claims@[k].scope);
        }
    }
    if !same || any_owned {
        let mut layers: Vec<(ProfileName, Scope)> = Vec::new();
        let mut k: usize = 0;
        while k < claims.len()
            invariant
                k <= claims@.len(),
                layers@.map_values(|c: (ProfileName, Scope)| (c.0@, c.1)) == claims@.take(k as int).map_values(|c: Claim| (c.layer@, c.scope)),
            decreases claims@.len() - k,
        {
            let ghost before = layers@.map_values(|c: (ProfileName, Scope)| (c.0@, c.1));
            layers.push((claims[k].layer.clone(), claims[k].scope));
            k += 1;
            assert(claims@.take(k as int) == claims@.take(k - 1).push(claims@[k - 1]));
            assert(layers@.map_values(|c: (ProfileName, Scope)| (c.0@, c.1)) =~= before.push((claims@[k - 1].layer@, claims@[k - 1].scope)));
        }
        assert(claims@.take(claims@.len() as int) == claims@);
        assert(claims@.map_values(|c: Claim| (c.layer@, c.scope)) =~= cv.map_values(|c: ClaimView| (c.0, c.1)));
        return Err(ProfileError::Scopes { path: path.clone(), layers });
    }
    let starting = named(claims, false);
    if starting.len() > 1 {
        return Err(ProfileError::Starters { path: path.clone(), layers: starting });
    }
    Ok(())
}

/// One layer's part of a file.
#[derive(Debug)]
pub struct Portion {
    /// How much of the file it is.
    pub scope: Scope,
    /// How it is found, read and written.
    pub shape: Shape,
    /// What the profile puts there, templates rendered.
    pub content: Vec<u8>,
    /// The payload file itself, templates rendered.
    pub text: Vec<u8>,
    /// Whether its starter, if it has one, is the file's.
    pub starts: bool,
    /// The file the target's starts from when it is absent, templates rendered.
    pub starter: Option<Vec<u8>>,
}

/// What a layer provides at one slot, overrides applied.
#[derive(Debug)]
pub struct Provided {
    /// Index into the layers.
    pub layer: usize,
    /// How it is managed.
    pub policy: Policy,
    /// How a merge of its file is checked.
    pub validate: Format,
    /// Whether the file is written executable.
    pub executable: bool,
    /// Its part of the file; `None` when it provides the whole file.
    pub portion: Option<Portion>,
}

/// The entry layer `l` gives `path`, its first.
pub open spec fn entry_at(l: Layer, path: Seq<char>) -> Option<FileSpec> {
    first_set(l.files@.map_values(|f: (RelPath, LayerFile)| if f.0@ == path {
        Some(f.1.spec)
    } else {
        None
    }))
}

/// The policy layer `l` manages `path` under: the override's, else its entry's, else `owned`.
pub open spec fn policy_at(l: Layer, path: Seq<char>, over: Option<Override>) -> Policy {
    match over {
        Some(o) if o.policy is Some => o.policy->0,
        _ => match entry_at(l, path) {
            Some(spec) => policy_of(spec),
            None => Policy::Owned,
        },
    }
}

/// Whether layer `l` would start `path` when the target has none: a whole `once` file, or a part
/// with a starter.
pub open spec fn starts_at(l: Layer, path: Seq<char>, over: Option<Override>) -> bool {
    match entry_at(l, path) {
        Some(spec) => match spec.scope {
            Scope::File => policy_at(l, path, over) == Policy::Once,
            _ => spec.starter is Some,
        },
        None => false,
    }
}

/// Whether layer `l` owns part of `path`.
pub open spec fn part_at(l: Layer, path: Seq<char>) -> bool {
    entry_at(l, path) matches Some(spec) && spec.scope != Scope::File
}

/// The candidate of `candidates` the override's `from` picks: the first whose layer is named so.
pub open spec fn picked_of(layers: Seq<Layer>, candidates: Seq<usize>, from: Seq<char>) -> Option<usize> {
    first_set(candidates.map_values(|i: usize| if layers[i as int].meta.name@ == from {
        Some(i)
    } else {
        None
    }))
}

/// The candidates that provide `path` once the override has its say, and the one whose starter
/// is the file's, if it chose one: a `from` naming a starter keeps it beside every part; one
/// naming another layer leaves it alone; one whose layer's gates leave the file out stands aside.
pub open spec fn chosen(layers: Seq<Layer>, path: Seq<char>, candidates: Seq<usize>, over: Option<Override>) -> (Seq<usize>, Option<usize>) {
    match over {
        Some(o) if o.from is Some => match picked_of(layers, candidates, o.from->0@) {
            Some(p) => if starts_at(layers[p as int], path, over) {
                (candidates.filter(|i: usize| i == p || part_at(layers[i as int], path)), Some(p))
            } else {
                (seq![p], None)
            },
            None => (candidates, None),
        },
        _ => (candidates, None),
    }
}

/// Whether candidate `i` starts the file, the override's choice first.
pub open spec fn starting(layers: Seq<Layer>, path: Seq<char>, i: usize, starter: Option<usize>, over: Option<Override>) -> bool {
    match starter {
        Some(p) => p == i,
        None => starts_at(layers[i as int], path, over),
    }
}

/// The claims of the chosen candidates.
pub open spec fn claims_of(layers: Seq<Layer>, path: Seq<char>, chosen: Seq<usize>, starter: Option<usize>, over: Option<Override>) -> Seq<(Seq<char>, Scope, Policy, bool)> {
    chosen.map_values(|i: usize| (
        layers[i as int].meta.name@,
        entry_at(layers[i as int], path)->0.scope,
        policy_at(layers[i as int], path, over),
        starting(layers, path, i, starter, over),
    ))
}

/// Claims, as values.
pub open spec fn claims_view(claims: Seq<Claim>) -> Seq<(Seq<char>, Scope, Policy, bool)> {
    claims.map_values(|c: Claim| (c.layer@, c.scope, c.policy, c.starts))
}

/// Whether any layer that lists `path` is named `from`.
pub open spec fn listed_by(layers: Seq<Layer>, path: Seq<char>, from: Seq<char>) -> bool {
    exists|i: int| 0 <= i < layers.len() && lists(#[trigger] layers[i], path) && layers[i].meta.name@ == from
}

/// The names of the layers that list `path`, in order.
pub open spec fn listing(layers: Seq<Layer>, path: Seq<char>) -> Seq<Seq<char>> {
    layers.filter(|l: Layer| lists(l, path)).map_values(|l: Layer| l.meta.name@)
}

/// How a merge of `path` is checked under candidate layer `l`: the override's, the entry's, or
/// what its extension implies.
pub open spec fn validate_at(l: Layer, path: RelPath, over: Option<Override>) -> Format {
    match over {
        Some(o) if o.validate is Some => o.validate->0,
        _ => match entry_at(l, path@) {
            Some(spec) if spec.validate is Some => spec.validate->0,
            _ => format_of(file_name_of(path@)),
        },
    }
}

/// What a provided slot is, as values: its part's owner, the layer, its policy, its format,
/// whether it is executable, and its part's scope and whether it starts the file.
pub open spec fn provided_view(sp: (Slot, Provided)) -> (Seq<char>, Option<Seq<char>>, usize, Policy, Format, bool, Option<(Scope, bool)>) {
    (sp.0.path@, match sp.0.part {
        Some(p) => Some(p@),
        None => None,
    }, sp.1.layer, sp.1.policy, sp.1.validate, sp.1.executable, match sp.1.portion {
        Some(p) => Some((p.scope, p.starts)),
        None => None,
    })
}

/// What candidate `i` provides of `path`, as values.
pub open spec fn provision(layers: Seq<Layer>, path: RelPath, i: usize, starter: Option<usize>, over: Option<Override>) -> (Seq<char>, Option<Seq<char>>, usize, Policy, Format, bool, Option<(Scope, bool)>) {
    let l = layers[i as int];
    let spec = entry_at(l, path@)->0;
    (path@, if spec.scope == Scope::File {
        None
    } else {
        Some(l.meta.name@)
    }, i, policy_at(l, path@, over), validate_at(l, path, over), spec.executable, if spec.scope == Scope::File {
        None
    } else {
        Some((spec.scope, starting(layers, path@, i, starter, over)))
    })
}

/// Where `path`'s entry first is among the files of `l`.
fn entry_index(l: &Layer, path: &RelPath) -> (r: Option<usize>)
    ensures
        match r {
            Some(k) => k < l.files@.len() && entry_at(*l, path@) == Some(l.files@[k as int].1.spec),
            None => entry_at(*l, path@) is None && !lists(*l, path@),
        },
{
    let ghost all = l.files@.map_values(|f: (RelPath, LayerFile)| if f.0@ == path@ {
        Some(f.1.spec)
    } else {
        None
    });
    let mut k: usize = 0;
    while k < l.files.len()
        invariant
            k <= l.files@.len(),
            all == l.files@.map_values(|f: (RelPath, LayerFile)| if f.0@ == path@ {
                Some(f.1.spec)
            } else {
                None
            }),
            first_set(all.take(k as int)) is None,
            forall|j: int| 0 <= j < k ==> (#[trigger] l.files@[j]).0@ != path@,
        decreases l.files@.len() - k,
    {
        proof {
            crate::text::lemma_first_set_step(all, k as int);
        }
        if l.files[k].0.same(path) {
            proof {
                crate::text::lemma_first_set_prefix(all, k + 1);
            }
            return Some(k);
        }
        k += 1;
    }
    assert(all.take(l.files@.len() as int) == all);
    None
}

/// The policy layer `l` manages `path` under.
fn policy_for(l: &Layer, path: &RelPath, over: Option<&Override>) -> (p: Policy)
    ensures
        p == policy_at(*l, path@, match over {
            Some(o) => Some(*o),
            None => None,
        }),
{
    if let Some(o) = over {
        if let Some(p) = o.policy {
            return p;
        }
    }
    match entry_index(l, path) {
        Some(k) => l.files[k].1.spec.policy(),
        None => Policy::Owned,
    }
}

/// Whether layer `l` would start `path` when the target has none.
fn starts_for(l: &Layer, path: &RelPath, over: Option<&Override>) -> (r: bool)
    ensures
        r == starts_at(*l, path@, match over {
            Some(o) => Some(*o),
            None => None,
        }),
{
    match entry_index(l, path) {
        Some(k) => match l.files[k].1.spec.scope {
            Scope::File => policy_for(l, path, over) == Policy::Once,
            _ => l.files[k].1.spec.starter.is_some(),
        },
        None => false,
    }
}

/// Whether layer `l` owns part of `path`.
fn part_for(l: &Layer, path: &RelPath) -> (r: bool)
    ensures
        r == part_at(*l, path@),
{
    match entry_index(l, path) {
        Some(k) => l.files[k].1.spec.scope != Scope::File,
        None => false,
    }
}

/// The override, as a value.
pub open spec fn over_view(over: Option<&Override>) -> Option<Override> {
    match over {
        Some(o) => Some(*o),
        None => None,
    }
}

/// The candidates that provide `path` once the override has its say, and the one whose starter
/// is the file's; an error when the override names a layer that does not list `path`.
fn choose_candidates(layers: &Vec<Layer>, path: &RelPath, candidates: Vec<usize>, over: Option<&Override>) -> (r: Result<(Vec<usize>, Option<usize>), ProfileError>)
    requires
        forall|k: int| 0 <= k < candidates@.len() ==> (#[trigger] candidates@[k]) < layers@.len(),
    ensures
        match r {
            Ok((c, starter)) => (c@, starter) == chosen(layers@, path@, candidates@, over_view(over))
                && !(over_view(over) matches Some(o) && o.from is Some && !listed_by(layers@, path@, o.from->0@)),
            Err(ProfileError::NotProvided { path: p, from, layers: names }) => p == *path && (over_view(over) matches Some(o)
                && o.from == Some(from)) && !listed_by(layers@, path@, from@) && name_texts(names@) == listing(layers@, path@),
            Err(_) => false,
        },
{
    let from = match over {
        Some(o) => match &o.from {
            Some(f) => f,
            None => return Ok((candidates, None)),
        },
        None => return Ok((candidates, None)),
    };
    let mut names: Vec<ProfileName> = Vec::new();
    let mut found = false;
    let mut i: usize = 0;
    while i < layers.len()
        invariant
            i <= layers@.len(),
            name_texts(names@) == layers@.take(i as int).filter(|l: Layer| lists(l, path@)).map_values(|l: Layer| l.meta.name@),
            found == exists|k: int| 0 <= k < i && lists(#[trigger] layers@[k], path@) && layers@[k].meta.name@ == from@,
        decreases layers@.len() - i,
    {
        proof {
            assert(layers@.take(i + 1).drop_last() == layers@.take(i as int));
            reveal(Seq::filter);
        }
        if layers[i].file_index(path).is_some() {
            let ghost before = name_texts(names@);
            names.push(layers[i].meta.name.clone());
            assert(name_texts(names@) =~= before.push(layers@[i as int].meta.name@));
            if layers[i].meta.name.same(from) {
                found = true;
            }
        }
        i += 1;
    }
    assert(layers@.take(layers@.len() as int) == layers@);
    if !found {
        return Err(ProfileError::NotProvided { path: path.clone(), from: from.clone(), layers: names });
    }
    let ghost picks = candidates@.map_values(|i: usize| if layers@[i as int].meta.name@ == from@ {
        Some(i)
    } else {
        None
    });
    let mut picked: Option<usize> = None;
    let mut k: usize = 0;
    while k < candidates.len()
        invariant
            k <= candidates@.len(),
            forall|m: int| 0 <= m < candidates@.len() ==> (#[trigger] candidates@[m]) < layers@.len(),
            picks == candidates@.map_values(|i: usize| if layers@[i as int].meta.name@ == from@ {
                Some(i)
            } else {
                None
            }),
            picked == first_set(picks.take(k as int)),
            picked is Some ==> picked == first_set(picks),
            picked matches Some(q) ==> q < layers@.len(),
        decreases candidates@.len() - k,
    {
        if picked.is_none() {
            proof {
                crate::text::lemma_first_set_step(picks, k as int);
            }
            if layers[candidates[k]].meta.name.same(from) {
                picked = Some(candidates[k]);
                proof {
                    crate::text::lemma_first_set_prefix(picks, k + 1);
                }
            }
        } else {
            proof {
                crate::text::lemma_first_set_step(picks, k as int);
            }
        }
        k += 1;
    }
    assert(picks.take(candidates@.len() as int) == picks);
    let p = match picked {
        Some(p) => p,
        None => return Ok((candidates, None)),
    };
    if starts_for(&layers[p], path, over) {
        let ghost keep = |i: usize| i == p || part_at(layers@[i as int], path@);
        let mut kept: Vec<usize> = Vec::new();
        let mut k: usize = 0;
        while k < candidates.len()
            invariant
                k <= candidates@.len(),
                forall|m: int| 0 <= m < candidates@.len() ==> (#[trigger] candidates@[m]) < layers@.len(),
                keep == (|i: usize| i == p || part_at(layers@[i as int], path@)),
                kept@ == candidates@.take(k as int).filter(keep),
            decreases candidates@.len() - k,
        {
            proof {
                assert(candidates@.take(k + 1).drop_last() == candidates@.take(k as int));
                reveal(Seq::filter);
            }
            let i = candidates[k];
            if i == p || part_for(&layers[i], path) {
                kept.push(i);
            }
            k += 1;
        }
        assert(candidates@.take(candidates@.len() as int) == candidates@);
        Ok((kept, Some(p)))
    } else {
        let mut one: Vec<usize> = Vec::new();
        one.push(p);
        assert(one@ =~= seq![p]);
        Ok((one, None))
    }
}

/// Whether `e` is why the chosen candidates may not provide `path`: they may not share it, or
/// one's part has no shape.
pub open spec fn provide_error(layers: Seq<Layer>, path: RelPath, candidates: Seq<usize>, over: Option<Override>, e: ProfileError) -> bool {
    let (c, starter) = chosen(layers, path@, candidates, over);
    match share_fault(claims_of(layers, path@, c, starter, over)) {
        Some(f) => share_error(e, path, f),
        None => (e matches ProfileError::NoKeys { path: p } && p == path) || (e matches ProfileError::NoComment { path: p } && p == path),
    }
}

/// The shape of candidate `i`'s part of `path`, or why it has none: as [`Shape::of`] reads its
/// entry's scope and comment, the format it is checked as, and the layer's name.
pub open spec fn shape_at(layers: Seq<Layer>, path: RelPath, i: usize, over: Option<Override>) -> Result<Option<Result<crate::part::Syntax, (Seq<char>, Seq<char>)>>, bool> {
    let l = layers[i as int];
    let spec = entry_at(l, path@)->0;
    shape_of(spec.scope, path, validate_at(l, path, over), spec.comment, l.meta.name@)
}

/// Why the first of the candidates `c` whose part has no shape has none: `true` for owned keys
/// in an unstructured file, `false` for a block whose comment syntax is unknown.
pub open spec fn shape_fault(layers: Seq<Layer>, path: RelPath, c: Seq<usize>, over: Option<Override>) -> Option<bool>
    decreases c.len(),
{
    if c.len() == 0 {
        None
    } else {
        match shape_at(layers, path, c[0], over) {
            Err(b) => Some(b),
            Ok(_) => shape_fault(layers, path, c.drop_first(), over),
        }
    }
}

proof fn lemma_shape_fault(layers: Seq<Layer>, path: RelPath, c: Seq<usize>, over: Option<Override>, k: int)
    requires
        0 <= k <= c.len(),
        forall|m: int| 0 <= m < k ==> shape_at(layers, path, #[trigger] c[m], over) is Ok,
    ensures
        k < c.len() && shape_at(layers, path, c[k], over) is Err ==> shape_fault(layers, path, c, over) == Some(
            shape_at(layers, path, c[k], over)->Err_0,
        ),
        k == c.len() ==> shape_fault(layers, path, c, over) is None,
    decreases k,
{
    if k > 0 {
        let rest = c.drop_first();
        assert forall|m: int| 0 <= m < k - 1 implies shape_at(layers, path, #[trigger] rest[m], over) is Ok by {
            assert(rest[m] == c[m + 1]);
        }
        lemma_shape_fault(layers, path, rest, over, k - 1);
        assert(shape_at(layers, path, c[0], over) is Ok);
    }
}

/// How a merge of `path` is checked under candidate layer `l`.
fn validate_for(l: &Layer, path: &RelPath, over: Option<&Override>) -> (f: Format)
    ensures
        f == validate_at(*l, *path, over_view(over)),
{
    if let Some(o) = over {
        if let Some(v) = o.validate {
            return v;
        }
    }
    match entry_index(l, path) {
        Some(k) => match l.files[k].1.spec.validate {
            Some(v) => v,
            None => Format::of(path),
        },
        None => Format::of(path),
    }
}

/// The providers of `path`, which the layers at `candidates` list and `over` overrides.
///
/// Fails when the override names a layer that does not list `path`; when the layers may not
/// share it ([`share`]); or when a part has no shape ([`Shape::of`]).
pub fn provide(layers: &Vec<Layer>, path: &RelPath, candidates: Vec<usize>, over: Option<&Override>) -> (r: Result<Vec<(Slot, Provided)>, ProfileError>)
    requires
        forall|k: int| 0 <= k < candidates@.len() ==> (#[trigger] candidates@[k]) < layers@.len() && lists(
            layers@[candidates@[k] as int],
            path@,
        ),
    ensures
        (over_view(over) matches Some(o) && o.from is Some && !listed_by(layers@, path@, o.from->0@)) ==> (r matches Err(
            ProfileError::NotProvided { path: p, from, layers: names },
        ) && p == *path && name_texts(names@) == listing(layers@, path@)),
        r matches Ok(v) ==> ({
            let (c, starter) = chosen(layers@, path@, candidates@, over_view(over));
            &&& share_fault(claims_of(layers@, path@, c, starter, over_view(over))) is None
            &&& v@.map_values(|sp: (Slot, Provided)| provided_view(sp)) == c.map_values(|i: usize| provision(layers@, *path, i, starter, over_view(over)))
        }),
        r matches Err(e) ==> (!(over_view(over) matches Some(o) && o.from is Some && !listed_by(layers@, path@, o.from->0@))
            ==> provide_error(layers@, *path, candidates@, over_view(over), e)),
        !(over_view(over) matches Some(o) && o.from is Some && !listed_by(layers@, path@, o.from->0@)) ==> ({
            let (c, starter) = chosen(layers@, path@, candidates@, over_view(over));
            match share_fault(claims_of(layers@, path@, c, starter, over_view(over))) {
                Some(f) => r matches Err(e) && share_error(e, *path, f),
                None => match shape_fault(layers@, *path, c, over_view(over)) {
                    Some(true) => r matches Err(ProfileError::NoKeys { path: p }) && p == *path,
                    Some(false) => r matches Err(ProfileError::NoComment { path: p }) && p == *path,
                    None => r is Ok,
                },
            }
        }),
        r matches Ok(v) ==> forall|k: int| 0 <= k < v@.len() ==> (#[trigger] v@[k]).0.path == *path && v@[k].1.layer == chosen(
            layers@,
            path@,
            candidates@,
            over_view(over),
        ).0[k],
        r matches Ok(v) ==> forall|k: int| 0 <= k < v@.len() ==> match (#[trigger] v@[k]).1.portion {
            Some(p) => p.content@.len() == 0 && p.text@.len() == 0 && p.starter is None && shape_at(
                layers@,
                *path,
                chosen(layers@, path@, candidates@, over_view(over)).0[k],
                over_view(over),
            ) == Ok::<_, bool>(Some(shape_view(p.shape))),
            None => shape_at(layers@, *path, chosen(layers@, path@, candidates@, over_view(over)).0[k], over_view(over))
                == Ok::<_, bool>(None::<Result<crate::part::Syntax, (Seq<char>, Seq<char>)>>),
        },
{
    let ghost given = candidates@;
    let mut copied: Vec<usize> = Vec::new();
    let mut q: usize = 0;
    while q < candidates.len()
        invariant
            q <= candidates@.len(),
            copied@ == candidates@.take(q as int),
        decreases candidates@.len() - q,
    {
        copied.push(candidates[q]);
        q += 1;
        assert(candidates@.take(q as int) == candidates@.take(q - 1).push(candidates@[q - 1]));
    }
    assert(candidates@.take(candidates@.len() as int) == candidates@);
    let (chosen_list, starter) = match choose_candidates(layers, path, copied, over) {
        Ok(c) => c,
        Err(e) => return Err(e),
    };
    proof {
        let (c, st) = chosen(layers@, path@, given, over_view(over));
        assert forall|k: int| 0 <= k < chosen_list@.len() implies (#[trigger] chosen_list@[k]) < layers@.len() && lists(
            layers@[chosen_list@[k] as int], path@) by {
            match over_view(over) {
                Some(o) => if o.from is Some {
                    match picked_of(layers@, given, o.from->0@) {
                        Some(q) => if starts_at(layers@[q as int], path@, over_view(over)) {
                            let keep = |i: usize| i == q || part_at(layers@[i as int], path@);
                            assert(given.filter(keep)[k] == chosen_list@[k]);
                            assert(given.filter(keep).contains(chosen_list@[k]));
                            given.lemma_filter_contains_rev(keep, chosen_list@[k]);
                            assert(given.contains(chosen_list@[k]));
                        } else {
                            let picks = given.map_values(|i: usize| if layers@[i as int].meta.name@ == o.from->0@ {
                                Some(i)
                            } else {
                                None
                            });
                            crate::text::lemma_first_set_in(picks);
                            let j = choose|j: int| 0 <= j < picks.len() && picks[j] == Some(q);
                            assert(chosen_list@[k] == q);
                        },
                        None => {},
                    }
                },
                None => {},
            }
        }
    }
    let mut claims: Vec<Claim> = Vec::new();
    let mut k: usize = 0;
    while k < chosen_list.len()
        invariant
            k <= chosen_list@.len(),
            forall|m: int| 0 <= m < chosen_list@.len() ==> (#[trigger] chosen_list@[m]) < layers@.len() && lists(
                layers@[chosen_list@[m] as int], path@),
            claims_view(claims@) == claims_of(layers@, path@, chosen_list@.take(k as int), starter, over_view(over)),
            (chosen_list@, starter) == chosen(layers@, path@, given, over_view(over)),
            given == candidates@,
            !(over_view(over) matches Some(o) && o.from is Some && !listed_by(layers@, path@, o.from->0@)),
        decreases chosen_list@.len() - k,
    {
        let i = chosen_list[k];
        let l = &layers[i];
        let e = entry_index(l, path);
        let scope = match e {
            Some(m) => l.files[m].1.spec.scope,
            None => Scope::File,
        };
        let starts = match starter {
            Some(p) => p == i,
            None => starts_for(l, path, over),
        };
        let ghost before = claims_view(claims@);
        claims.push(Claim { layer: l.meta.name.clone(), scope, policy: policy_for(l, path, over), starts });
        k += 1;
        assert(chosen_list@.take(k as int) == chosen_list@.take(k - 1).push(i));
        assert(claims_view(claims@) =~= before.push(claims_of(layers@, path@, seq![i], starter, over_view(over))[0]));
        assert(claims_of(layers@, path@, chosen_list@.take(k as int), starter, over_view(over)) =~= claims_of(layers@, path@, chosen_list@.take(k - 1), starter, over_view(over)).push(claims_of(layers@, path@, seq![i], starter, over_view(over))[0]));
    }
    assert(chosen_list@.take(chosen_list@.len() as int) == chosen_list@);
    match share(path, &claims) {
        Ok(()) => {},
        Err(e) => return Err(e),
    }
    let mut provided: Vec<(Slot, Provided)> = Vec::new();
    let mut k: usize = 0;
    while k < chosen_list.len()
        invariant
            k <= chosen_list@.len(),
            forall|m: int| 0 <= m < chosen_list@.len() ==> (#[trigger] chosen_list@[m]) < layers@.len() && lists(
                layers@[chosen_list@[m] as int], path@),
            provided@.map_values(|sp: (Slot, Provided)| provided_view(sp)) == chosen_list@.take(k as int).map_values(
                |i: usize| provision(layers@, *path, i, starter, over_view(over))),
            share_fault(claims_of(layers@, path@, chosen_list@, starter, over_view(over))) is None,
            (chosen_list@, starter) == chosen(layers@, path@, given, over_view(over)),
            given == candidates@,
            !(over_view(over) matches Some(o) && o.from is Some && !listed_by(layers@, path@, o.from->0@)),
            provided@.len() == k,
            forall|m: int| 0 <= m < k ==> (#[trigger] provided@[m]).0.path == *path && provided@[m].1.layer == chosen_list@[m],
            forall|m: int| 0 <= m < k ==> shape_at(layers@, *path, #[trigger] chosen_list@[m], over_view(over)) is Ok,
            forall|m: int| 0 <= m < k ==> match (#[trigger] provided@[m]).1.portion {
                Some(p) => p.content@.len() == 0 && p.text@.len() == 0 && p.starter is None && shape_at(
                    layers@,
                    *path,
                    chosen_list@[m],
                    over_view(over),
                ) == Ok::<_, bool>(Some(shape_view(p.shape))),
                None => shape_at(layers@, *path, chosen_list@[m], over_view(over)) == Ok::<_, bool>(None::<Result<crate::part::Syntax, (Seq<char>, Seq<char>)>>),
            },
        decreases chosen_list@.len() - k,
    {
        let i = chosen_list[k];
        let l = &layers[i];
        let m = match entry_index(l, path) {
            Some(m) => m,
            None => {
                assert(false);
                k += 1;
                continue;
            },
        };
        let spec = &l.files[m].1.spec;
        let format = validate_for(l, path, over);
        let shape = match Shape::of(spec.scope, path, format, spec.comment, l.meta.name.as_str()) {
            Ok(s) => s,
            Err(e) => {
                proof {
                    lemma_shape_fault(layers@, *path, chosen_list@, over_view(over), k as int);
                }
                assert((e matches ProfileError::NoKeys { path: p } && p == *path) || (e matches ProfileError::NoComment { path: p } && p == *path));
                assert(chosen(layers@, path@, given, over_view(over)).0 == chosen_list@);
                assert(chosen(layers@, path@, given, over_view(over)).1 == starter);
                assert(provide_error(layers@, *path, given, over_view(over), e));
                return Err(e);
            },
        };
        let starts = match starter {
            Some(p) => p == i,
            None => starts_for(l, path, over),
        };
        let (part, portion) = match shape {
            Some(shape) => (Some(l.meta.name.as_str().to_owned()), Some(Portion {
                scope: spec.scope,
                shape,
                content: Vec::new(),
                text: Vec::new(),
                starts,
                starter: None,
            })),
            None => (None, None),
        };
        let ghost before = provided@.map_values(|sp: (Slot, Provided)| provided_view(sp));
        provided.push((Slot { path: path.clone(), part }, Provided {
            layer: i,
            policy: policy_for(l, path, over),
            validate: format,
            executable: spec.executable,
            portion,
        }));
        k += 1;
        assert(chosen_list@.take(k as int) == chosen_list@.take(k - 1).push(i));
        assert(provided@.map_values(|sp: (Slot, Provided)| provided_view(sp)) =~= before.push(provision(layers@, *path, i, starter, over_view(over))));
    }
    assert(chosen_list@.take(chosen_list@.len() as int) == chosen_list@);
    proof {
        lemma_shape_fault(layers@, *path, chosen_list@, over_view(over), chosen_list@.len() as int);
    }
    Ok(provided)
}

/// Whether `layer` lists `path` with gates that let it apply.
pub open spec fn applies(layer: Layer, path: Seq<char>) -> bool {
    exists|k: int| 0 <= k < layer.files@.len() && (#[trigger] layer.files@[k]).0@ == path && layer.files@[k].1.gated is None
}

/// Whether `paths` is in text order, each path once.
pub open spec fn strictly_sorted(paths: Seq<Seq<char>>) -> bool {
    forall|i: int, j: int| 0 <= i < j < paths.len() ==> lex_le(#[trigger] paths[i], #[trigger] paths[j]) && paths[i] != paths[j]
}

/// The texts of `paths`.
pub open spec fn path_views(paths: Seq<RelPath>) -> Seq<Seq<char>> {
    paths.map_values(|p: RelPath| p@)
}

/// `sorted` with `p` added, in text order, each path once.
fn insert_path(sorted: &mut Vec<RelPath>, p: &RelPath)
    requires
        strictly_sorted(path_views(old(sorted)@)),
    ensures
        strictly_sorted(path_views(final(sorted)@)),
        forall|x: Seq<char>| path_views(final(sorted)@).contains(x) <==> (path_views(old(sorted)@).contains(x) || x == p@),
{
    proof {
        lemma_text_order_total();
    }
    let key = chars_of(p.as_str());
    let ghost before = path_views(sorted@);
    let mut q: usize = 0;
    while q < sorted.len() && text_le(&chars_of(sorted[q].as_str()), &key) && !sorted[q].same(p)
        invariant
            q <= sorted@.len(),
            key@ == p@,
            before == path_views(sorted@),
            sorted@ == old(sorted)@,
            forall|k: int| 0 <= k < q ==> lex_le(#[trigger] before[k], p@) && before[k] != p@,
        decreases sorted@.len() - q,
    {
        q += 1;
    }
    if q < sorted.len() && sorted[q].same(p) {
        assert(before[q as int] == p@);
        return;
    }
    proof {
        if q < before.len() {
            assert(!lex_le(before[q as int], p@));
            assert(text_order()(p@, before[q as int]) || text_order()(before[q as int], p@));
        }
    }
    sorted.insert(q, p.clone());
    proof {
        let after = path_views(sorted@);
        assert(after =~= before.insert(q as int, p@));
        assert forall|a: int, b: int| 0 <= a < b < after.len() implies lex_le(#[trigger] after[a], #[trigger] after[b]) && after[a] != after[b] by {
            if b == q {
                assert(after[a] == before[a]);
            } else if a == q {
                assert(after[b] == before[b - 1]);
                assert(text_order()(p@, before[q as int]));
                if b - 1 > q {
                    assert(lex_le(before[q as int], before[b - 1]));
                    assert(text_order()(before[q as int], before[b - 1]));
                }
                if p@ == before[b - 1] {
                    if b - 1 > q {
                        assert(text_order()(before[b - 1], before[q as int]));
                    }
                }
            } else {
                let a0 = if a < q { a } else { a - 1 };
                let b0 = if b < q { b } else { b - 1 };
                assert(after[a] == before[a0] && after[b] == before[b0]);
            }
        }
        assert forall|x: Seq<char>| after.contains(x) <==> (before.contains(x) || x == p@) by {
            if after.contains(x) {
                let i = choose|i: int| 0 <= i < after.len() && after[i] == x;
                if i < q {
                    assert(before[i] == x);
                } else if i > q {
                    assert(before[i - 1] == x);
                }
            }
            if before.contains(x) {
                let i = choose|i: int| 0 <= i < before.len() && before[i] == x;
                if i < q {
                    assert(after[i] == x);
                } else {
                    assert(after[i + 1] == x);
                }
            }
            if x == p@ {
                assert(after[q as int] == x);
            }
        }
    }
}

/// Every path the layers list, in text order, each once: with `only_applying`, only those whose
/// gates let them apply.
fn listed_paths(layers: &Vec<Layer>, only_applying: bool) -> (out: Vec<RelPath>)
    ensures
        strictly_sorted(path_views(out@)),
        forall|x: Seq<char>| path_views(out@).contains(x) <==> exists|l: int| 0 <= l < layers@.len() && (if only_applying {
            applies(#[trigger] layers@[l], x)
        } else {
            lists(layers@[l], x)
        }),
{
    let mut out: Vec<RelPath> = Vec::new();
    let mut l: usize = 0;
    while l < layers.len()
        invariant
            l <= layers@.len(),
            strictly_sorted(path_views(out@)),
            forall|x: Seq<char>| path_views(out@).contains(x) <==> exists|m: int| 0 <= m < l && (if only_applying {
                applies(#[trigger] layers@[m], x)
            } else {
                lists(layers@[m], x)
            }),
        decreases layers@.len() - l,
    {
        let layer = &layers[l];
        let ghost start = path_views(out@);
        assert(forall|x: Seq<char>| start.contains(x) <==> exists|m: int| 0 <= m < l && (if only_applying {
            applies(#[trigger] layers@[m], x)
        } else {
            lists(layers@[m], x)
        }));
        let mut k: usize = 0;
        while k < layer.files.len()
            invariant
                k <= layer.files@.len(),
                l < layers@.len(),
                *layer == layers@[l as int],
                strictly_sorted(path_views(out@)),
                forall|x: Seq<char>| path_views(out@).contains(x) <==> (start.contains(x) || exists|j: int| 0 <= j < k
                    && (#[trigger] layer.files@[j]).0@ == x && (only_applying ==> layer.files@[j].1.gated is None)),
                forall|x: Seq<char>| start.contains(x) <==> exists|m: int| 0 <= m < l && (if only_applying {
                    applies(#[trigger] layers@[m], x)
                } else {
                    lists(layers@[m], x)
                }),
            decreases layer.files@.len() - k,
        {
            let ghost prev = path_views(out@);
            assert(forall|x: Seq<char>| prev.contains(x) <==> (start.contains(x) || exists|j: int| 0 <= j < k
                && (#[trigger] layer.files@[j]).0@ == x && (only_applying ==> layer.files@[j].1.gated is None)));
            let taken = !only_applying || layer.files[k].1.gated.is_none();
            if taken {
                insert_path(&mut out, &layer.files[k].0);
            }
            proof {
                let f = |j: int, x: Seq<char>| (layer.files@[j]).0@ == x && (only_applying ==> layer.files@[j].1.gated is None);
                assert forall|x: Seq<char>| path_views(out@).contains(x) <==> (start.contains(x) || exists|j: int| 0 <= j < k + 1
                    && (#[trigger] layer.files@[j]).0@ == x && (only_applying ==> layer.files@[j].1.gated is None)) by {
                    if path_views(out@).contains(x) && !start.contains(x) {
                        if prev.contains(x) {
                            let j = choose|j: int| 0 <= j < k && (#[trigger] layer.files@[j]).0@ == x && (only_applying ==> layer.files@[j].1.gated is None);
                            assert(f(j, x));
                        } else {
                            assert(taken && x == layer.files@[k as int].0@);
                            assert(f(k as int, x));
                        }
                    }
                    if exists|j: int| 0 <= j < k + 1 && (#[trigger] layer.files@[j]).0@ == x && (only_applying ==> layer.files@[j].1.gated is None) {
                        let j = choose|j: int| 0 <= j < k + 1 && (#[trigger] layer.files@[j]).0@ == x && (only_applying ==> layer.files@[j].1.gated is None);
                        if j < k {
                            assert(prev.contains(x));
                        } else {
                            assert(taken);
                        }
                    }
                }
            }
            k += 1;
        }
        proof {
            let lv = layers@[l as int];
            assert(*layer == lv);
            assert forall|x: Seq<char>| path_views(out@).contains(x) <==> exists|m: int| 0 <= m < l + 1 && (if only_applying {
                applies(#[trigger] layers@[m], x)
            } else {
                lists(layers@[m], x)
            }) by {
                if path_views(out@).contains(x) {
                    if start.contains(x) {
                        let m = choose|m: int| 0 <= m < l && (if only_applying {
                            applies(#[trigger] layers@[m], x)
                        } else {
                            lists(layers@[m], x)
                        });
                        assert(0 <= m < l + 1 && (if only_applying { applies(layers@[m], x) } else { lists(layers@[m], x) }));
                    } else {
                        let j = choose|j: int| 0 <= j < k && (#[trigger] layer.files@[j]).0@ == x && (only_applying ==> layer.files@[j].1.gated is None);
                        assert(lv.files@[j].0@ == x);
                        if only_applying {
                            assert(applies(lv, x));
                        } else {
                            assert(lists(lv, x));
                        }
                        assert(0 <= l < l + 1 && (if only_applying { applies(layers@[l as int], x) } else { lists(layers@[l as int], x) }));
                    }
                }
                if exists|m: int| 0 <= m < l + 1 && (if only_applying {
                    applies(#[trigger] layers@[m], x)
                } else {
                    lists(layers@[m], x)
                }) {
                    let m = choose|m: int| 0 <= m < l + 1 && (if only_applying {
                        applies(#[trigger] layers@[m], x)
                    } else {
                        lists(layers@[m], x)
                    });
                    if m < l {
                        assert(start.contains(x));
                    } else if only_applying {
                        let j = choose|j: int| 0 <= j < lv.files@.len() && (#[trigger] lv.files@[j]).0@ == x && lv.files@[j].1.gated is None;
                        assert(0 <= j < k && layer.files@[j].0@ == x && (only_applying ==> layer.files@[j].1.gated is None));
                    } else {
                        let j = choose|j: int| 0 <= j < lv.files@.len() && (#[trigger] lv.files@[j]).0@ == x;
                        assert(0 <= j < k && layer.files@[j].0@ == x && (only_applying ==> layer.files@[j].1.gated is None));
                    }
                }
            }
        }
        l += 1;
    }
    out
}

/// Whether some layer of `layers` lists `path` with gates that let it apply.
pub open spec fn applied_by_some(layers: Seq<Layer>, path: Seq<char>) -> bool {
    exists|l: int| 0 <= l < layers.len() && applies(#[trigger] layers[l], path)
}

/// Whether `layer` lists `path` with gates that let it apply.
fn applies_to(layer: &Layer, path: &RelPath) -> (r: bool)
    ensures
        r == applies(*layer, path@),
{
    let mut k: usize = 0;
    while k < layer.files.len()
        invariant
            k <= layer.files@.len(),
            forall|j: int| 0 <= j < k ==> !((#[trigger] layer.files@[j]).0@ == path@ && layer.files@[j].1.gated is None),
        decreases layer.files@.len() - k,
    {
        if layer.files[k].0.same(path) && layer.files[k].1.gated.is_none() {
            return true;
        }
        k += 1;
    }
    false
}

/// Whether some layer lists `path`.
fn listed_anywhere(layers: &Vec<Layer>, path: &RelPath) -> (r: bool)
    ensures
        r == exists|l: int| 0 <= l < layers@.len() && lists(#[trigger] layers@[l], path@),
{
    let mut l: usize = 0;
    while l < layers.len()
        invariant
            l <= layers@.len(),
            forall|m: int| 0 <= m < l ==> !lists(#[trigger] layers@[m], path@),
        decreases layers@.len() - l,
    {
        if layers[l].file_index(path).is_some() {
            return true;
        }
        l += 1;
    }
    false
}

/// The first of `overrides` that no layer lists, as the error that says so, naming every path the
/// layers list; `None` when each overrides a path some layer lists.
pub fn stale_override(layers: &Vec<Layer>, overrides: &Vec<(RelPath, Override)>) -> (r: Option<TargetError>)
    ensures
        match least(overrides@.len() as int, |i: int| !exists|l: int| 0 <= l < layers@.len() && lists(#[trigger] layers@[l], overrides@[i].0@)) {
            None => r is None,
            Some(i) => match r {
                Some(TargetError::StaleOverride { path, provided }) => path@ == overrides@[i].0@ && strictly_sorted(path_views(provided@))
                    && forall|x: Seq<char>| path_views(provided@).contains(x) <==> exists|l: int| 0 <= l < layers@.len() && lists(#[trigger] layers@[l], x),
                _ => false,
            },
        },
{
    let ghost p = |i: int| !exists|l: int| 0 <= l < layers@.len() && lists(#[trigger] layers@[l], overrides@[i].0@);
    let mut i: usize = 0;
    while i < overrides.len()
        invariant
            i <= overrides@.len(),
            p == (|i: int| !exists|l: int| 0 <= l < layers@.len() && lists(#[trigger] layers@[l], overrides@[i].0@)),
            forall|j: int| 0 <= j < i ==> !#[trigger] p(j),
        decreases overrides@.len() - i,
    {
        if !listed_anywhere(layers, &overrides[i].0) {
            proof {
                lemma_least(overrides@.len() as int, p, i as int);
            }
            let provided = listed_paths(layers, false);
            return Some(TargetError::StaleOverride { path: overrides[i].0.clone(), provided });
        }
        i += 1;
    }
    proof {
        lemma_least_found(overrides@.len() as int, p);
    }
    None
}

/// The override `overrides` gives the path `path`: its first for it.
pub open spec fn first_override(overrides: Seq<(RelPath, Override)>, path: Seq<char>) -> Option<Override> {
    if exists|k: int| 0 <= k < overrides.len() && (#[trigger] overrides[k]).0@ == path {
        Some(overrides[choose|k: int| 0 <= k < overrides.len() && (#[trigger] overrides[k]).0@ == path && forall|j: int| 0 <= j < k
            ==> (#[trigger] overrides[j]).0@ != path].1)
    } else {
        None
    }
}

/// The override `overrides` gives `path`: its first for it.
fn override_for<'a>(overrides: &'a Vec<(RelPath, Override)>, path: &RelPath) -> (r: Option<&'a Override>)
    ensures
        over_view(r) == first_override(overrides@, path@),
{
    let mut k: usize = 0;
    while k < overrides.len()
        invariant
            k <= overrides@.len(),
            forall|j: int| 0 <= j < k ==> (#[trigger] overrides@[j]).0@ != path@,
        decreases overrides@.len() - k,
    {
        if overrides[k].0.same(path) {
            proof {
                let o = overrides@;
                assert(0 <= k < o.len() && o[k as int].0@ == path@ && forall|j: int| 0 <= j < k ==> (#[trigger] o[j]).0@ != path@);
                let m = choose|m: int| 0 <= m < o.len() && (#[trigger] o[m]).0@ == path@ && forall|j: int| 0 <= j < m ==> (#[trigger] o[j]).0@ != path@;
                if m < k {
                    assert(o[m].0@ != path@);
                } else if m > k {
                    assert(o[k as int].0@ != path@);
                }
            }
            return Some(&overrides[k].1);
        }
        k += 1;
    }
    None
}

/// The layers among the first `n` of `layers` whose gates let them list `path`, in order.
pub open spec fn applying(layers: Seq<Layer>, path: Seq<char>, n: int) -> Seq<usize>
    decreases n,
{
    if n <= 0 {
        Seq::empty()
    } else {
        let before = applying(layers, path, n - 1);
        if applies(layers[n - 1], path) {
            before.push((n - 1) as usize)
        } else {
            before
        }
    }
}

/// What the layers provide of `paths`, path by path, each as [`provide`] provides it: over the
/// layers whose gates let them list it, with the path's first override.
pub open spec fn provided_all(layers: Seq<Layer>, overrides: Seq<(RelPath, Override)>, paths: Seq<RelPath>) -> Seq<(Seq<char>, Option<Seq<char>>, usize, Policy, Format, bool, Option<(Scope, bool)>)>
    decreases paths.len(),
{
    if paths.len() == 0 {
        Seq::empty()
    } else {
        let path = paths.last();
        let over = first_override(overrides, path@);
        let (c, starter) = chosen(layers, path@, applying(layers, path@, layers.len() as int), over);
        provided_all(layers, overrides, paths.drop_last()) + c.map_values(|i: usize| provision(layers, path, i, starter, over))
    }
}

/// Whether [`provide`] provides `path`, over the layers whose gates let them list it, with its
/// first override: the override names a layer that lists it, the layers may share it, and
/// every part has a shape.
pub open spec fn path_passes(layers: Seq<Layer>, overrides: Seq<(RelPath, Override)>, path: RelPath) -> bool {
    let over = first_override(overrides, path@);
    let (c, starter) = chosen(layers, path@, applying(layers, path@, layers.len() as int), over);
    &&& !(over matches Some(o) && o.from is Some && !listed_by(layers, path@, o.from->0@))
    &&& share_fault(claims_of(layers, path@, c, starter, over)) is None
    &&& shape_fault(layers, path, c, over) is None
}

/// Whether `e` is the error [`provide`] refuses `path` with, over the layers whose gates let them
/// list it, with its first override.
pub open spec fn path_refused(layers: Seq<Layer>, overrides: Seq<(RelPath, Override)>, path: RelPath, e: ProfileError) -> bool {
    let over = first_override(overrides, path@);
    let (c, starter) = chosen(layers, path@, applying(layers, path@, layers.len() as int), over);
    if over matches Some(o) && o.from is Some && !listed_by(layers, path@, o.from->0@) {
        e matches ProfileError::NotProvided { path: p, layers: names, .. } && p == path && name_texts(names@) == listing(layers, path@)
    } else {
        match share_fault(claims_of(layers, path@, c, starter, over)) {
            Some(f) => share_error(e, path, f),
            None => match shape_fault(layers, path, c, over) {
                Some(true) => e matches ProfileError::NoKeys { path: p } && p == path,
                Some(false) => e matches ProfileError::NoComment { path: p } && p == path,
                None => false,
            },
        }
    }
}

/// Whether the part `sp` provides, if any, is as [`provide`] makes it: empty, and shaped as its
/// layer's entry for its path reads, with the path's first override.
pub open spec fn portion_shaped(layers: Seq<Layer>, overrides: Seq<(RelPath, Override)>, sp: (Slot, Provided)) -> bool {
    let over = first_override(overrides, sp.0.path@);
    match sp.1.portion {
        Some(p) => p.content@.len() == 0 && p.text@.len() == 0 && p.starter is None && shape_at(layers, sp.0.path, sp.1.layer, over)
            == Ok::<_, bool>(Some(shape_view(p.shape))),
        None => shape_at(layers, sp.0.path, sp.1.layer, over) == Ok::<_, bool>(None::<Result<crate::part::Syntax, (Seq<char>, Seq<char>)>>),
    }
}

/// Whether every path of `paths` is provided, and no two are one file on a case- or
/// normalization-insensitive filesystem.
pub open spec fn paths_pass(layers: Seq<Layer>, overrides: Seq<(RelPath, Override)>, paths: Seq<RelPath>) -> bool {
    &&& forall|i: int| 0 <= i < paths.len() ==> path_passes(layers, overrides, #[trigger] paths[i])
    &&& forall|a: int, b: int| 0 <= a < paths.len() && 0 <= b < paths.len() && fold_of((#[trigger] paths[a])@) == fold_of((#[trigger] paths[b])@) ==> a == b
}

/// Whether `e` refuses `paths`: a path of it refused, or two of them, earlier first, one file on
/// a case- or normalization-insensitive filesystem.
pub open spec fn paths_refused(layers: Seq<Layer>, overrides: Seq<(RelPath, Override)>, paths: Seq<RelPath>, e: ProfileError) -> bool {
    ||| exists|i: int| 0 <= i < paths.len() && path_refused(layers, overrides, #[trigger] paths[i], e)
    ||| e matches ProfileError::FoldCollision { first, second } && exists|a: int, b: int| 0 <= a < b < paths.len() && (#[trigger] paths[a]) == first
        && (#[trigger] paths[b]) == second && fold_of(first@) == fold_of(second@)
}

/// The one layer that provides each file, or each layer's part of it, with `overrides` applied:
/// path by path, in text order, over the layers whose gates let them list it.
///
/// Fails as [`provide`] fails for a path; or when two paths are one file on a case- or
/// normalization-insensitive filesystem, naming the earlier first.
#[verifier::rlimit(100)]
#[verifier::spinoff_prover]
pub fn providers(layers: &Vec<Layer>, overrides: &Vec<(RelPath, Override)>) -> (r: Result<Vec<(Slot, Provided)>, ProfileError>)
    ensures
        r matches Ok(v) ==> forall|k: int| 0 <= k < v@.len() ==> applied_by_some(layers@, (#[trigger] v@[k]).0.path@),
        r matches Ok(v) ==> forall|k: int| 0 <= k < v@.len() ==> portion_shaped(layers@, overrides@, #[trigger] v@[k]),
        r matches Ok(v) ==> forall|a: int, b: int| 0 <= a < v@.len() && 0 <= b < v@.len() && fold_of(#[trigger] v@[a].0.path@) == fold_of(#[trigger] v@[b].0.path@)
            ==> v@[a].0.path@ == v@[b].0.path@,
        r matches Ok(v) ==> forall|a: int, b: int| 0 <= a < b < v@.len() ==> lex_le(#[trigger] v@[a].0.path@, #[trigger] v@[b].0.path@),
        r matches Err(ProfileError::FoldCollision { first, second }) ==> fold_of(first@) == fold_of(second@) && first@ != second@
            && lex_le(first@, second@),
        exists|paths: Seq<RelPath>| {
            &&& strictly_sorted(#[trigger] path_views(paths))
            &&& forall|x: Seq<char>| path_views(paths).contains(x) <==> applied_by_some(layers@, x)
            &&& (r is Ok <==> paths_pass(layers@, overrides@, paths))
            &&& r matches Ok(v) ==> v@.map_values(|sp: (Slot, Provided)| provided_view(sp)) == provided_all(layers@, overrides@, paths)
            &&& r matches Err(e) ==> paths_refused(layers@, overrides@, paths, e)
        },
{
    let paths = listed_paths(layers, true);
    let ghost pv = path_views(paths@);
    let mut out: Vec<(Slot, Provided)> = Vec::new();
    let mut i: usize = 0;
    while i < paths.len()
        invariant
            i <= paths@.len(),
            pv == path_views(paths@),
            strictly_sorted(pv),
            forall|x: Seq<char>| pv.contains(x) <==> exists|l: int| 0 <= l < layers@.len() && applies(#[trigger] layers@[l], x),
            forall|k: int| 0 <= k < out@.len() ==> exists|j: int| 0 <= j < i && (#[trigger] out@[k]).0.path@ == pv[j],
            forall|a: int, b: int| 0 <= a < b < out@.len() ==> lex_le(#[trigger] out@[a].0.path@, #[trigger] out@[b].0.path@),
            forall|a: int, b: int| 0 <= a < i && 0 <= b < i && fold_of(#[trigger] pv[a]) == fold_of(#[trigger] pv[b]) ==> a == b,
            out@.len() > 0 ==> exists|j: int| 0 <= j < i && out@.last().0.path@ == pv[j],
            out@.map_values(|sp: (Slot, Provided)| provided_view(sp)) == provided_all(layers@, overrides@, paths@.take(i as int)),
            forall|j: int| 0 <= j < i ==> path_passes(layers@, overrides@, #[trigger] paths@[j]),
            forall|k: int| 0 <= k < out@.len() ==> portion_shaped(layers@, overrides@, #[trigger] out@[k]),
        decreases paths@.len() - i,
    {
        let path = &paths[i];
        assert(pv[i as int] == path@);
        let mut candidates: Vec<usize> = Vec::new();
        let mut l: usize = 0;
        while l < layers.len()
            invariant
                l <= layers@.len(),
                forall|k: int| 0 <= k < candidates@.len() ==> (#[trigger] candidates@[k]) < layers@.len() && applies(layers@[candidates@[k] as int], path@),
                candidates@ == applying(layers@, path@, l as int),
            decreases layers@.len() - l,
        {
            if applies_to(&layers[l], path) {
                candidates.push(l);
            }
            l += 1;
        }
        proof {
            assert forall|k: int| 0 <= k < candidates@.len() implies (#[trigger] candidates@[k]) < layers@.len() && lists(
                layers@[candidates@[k] as int], path@) by {
                let m = candidates@[k] as int;
                let j = choose|j: int| 0 <= j < layers@[m].files@.len() && (#[trigger] layers@[m].files@[j]).0@ == path@ && layers@[m].files@[j].1.gated is None;
                assert(layers@[m].files@[j].0@ == path@);
            }
        }
        let ghost given = candidates@;
        let over = override_for(overrides, path);
        let provided = match provide(layers, path, candidates, over) {
            Ok(p) => p,
            Err(e) => {
                proof {
                    assert(path_refused(layers@, overrides@, paths@[i as int], e));
                    assert(!path_passes(layers@, overrides@, paths@[i as int]));
                }
                return Err(e);
            },
        };
        assert(path_passes(layers@, overrides@, paths@[i as int]));
        proof {
            let t = paths@.take(i + 1);
            assert(t.drop_last() =~= paths@.take(i as int));
            assert(t.last() == *path);
        }
        let f = path.fold();
        let mut j: usize = 0;
        while j < i
            invariant
                j <= i < paths@.len(),
                pv == path_views(paths@),
                f@ == fold_of(pv[i as int]),
                pv[i as int] == path@,
                *path == paths@[i as int],
                strictly_sorted(pv),
                forall|x: Seq<char>| pv.contains(x) <==> exists|l: int| 0 <= l < layers@.len() && applies(#[trigger] layers@[l], x),
                forall|k: int| 0 <= k < j ==> fold_of(#[trigger] pv[k]) != fold_of(pv[i as int]),
            decreases i - j,
        {
            let g = paths[j].fold();
            if crate::text::same(&chars_of(g.as_str()), &chars_of(f.as_str())) {
                assert(pv[j as int] == paths@[j as int]@);
                assert(lex_le(pv[j as int], pv[i as int]) && pv[j as int] != pv[i as int]);
                let first = paths[j].clone();
                let second = path.clone();
                proof {
                    assert(first == paths@[j as int] && second == paths@[i as int]);
                    assert(fold_of(paths@[j as int]@) == fold_of(paths@[i as int]@));
                }
                return Err(ProfileError::FoldCollision { first, second });
            }
            j += 1;
        }
        let ghost before = out@;
        let ghost pview = provided@.map_values(|sp: (Slot, Provided)| provided_view(sp));
        let ghost got = provided@;
        let mut provided = provided;
        out.append(&mut provided);
        proof {
            assert(out@.map_values(|sp: (Slot, Provided)| provided_view(sp)) =~= before.map_values(|sp: (Slot, Provided)| provided_view(sp)) + pview);
            assert forall|k: int| 0 <= k < pview.len() implies pview[k].0 == path@ by {}
            assert forall|k: int| 0 <= k < out@.len() implies portion_shaped(layers@, overrides@, #[trigger] out@[k]) by {
                if k >= before.len() {
                    let m = k - before.len();
                    assert(out@[k] == got[m]);
                    assert(got[m].1.layer == chosen(layers@, path@, given, over_view(over)).0[m]);
                    assert(got[m].0.path == *path);
                } else {
                    assert(out@[k] == before[k]);
                }
            }
            assert forall|k: int| 0 <= k < out@.len() implies exists|j: int| 0 <= j < i + 1 && (#[trigger] out@[k]).0.path@ == pv[j] by {
                if k < before.len() {
                    assert(out@[k] == before[k]);
                    let j = choose|j: int| 0 <= j < i && before[k].0.path@ == pv[j];
                } else {
                    assert(pview[k - before.len()].0 == out@[k].0.path@);
                    assert(out@[k].0.path@ == pv[i as int]);
                }
            }
            assert forall|a: int, b: int| 0 <= a < b < out@.len() implies lex_le(#[trigger] out@[a].0.path@, #[trigger] out@[b].0.path@) by {
                lemma_text_order_total();
                if b < before.len() {
                    assert(out@[a] == before[a] && out@[b] == before[b]);
                } else {
                    assert(out@[b].0.path@ == pv[i as int]) by {
                        assert(pview[b - before.len()].0 == out@[b].0.path@);
                    }
                    if a < before.len() {
                        assert(out@[a] == before[a]);
                        let j = choose|j: int| 0 <= j < i && before[a].0.path@ == pv[j];
                        assert(lex_le(pv[j], pv[i as int]));
                    } else {
                        assert(pview[a - before.len()].0 == out@[a].0.path@);
                        assert(text_order()(pv[i as int], pv[i as int]));
                    }
                }
            }
        }
        i += 1;
    }
    proof {
        assert forall|k: int| 0 <= k < out@.len() implies applied_by_some(layers@, (#[trigger] out@[k]).0.path@) by {
            let j = choose|j: int| 0 <= j < i && out@[k].0.path@ == pv[j];
            assert(pv.contains(pv[j]));
        }
        assert forall|a: int, b: int| 0 <= a < out@.len() && 0 <= b < out@.len() && fold_of(#[trigger] out@[a].0.path@) == fold_of(#[trigger] out@[b].0.path@)
            implies out@[a].0.path@ == out@[b].0.path@ by {
            let ja = choose|j: int| 0 <= j < i && out@[a].0.path@ == pv[j];
            let jb = choose|j: int| 0 <= j < i && out@[b].0.path@ == pv[j];
            assert(fold_of(pv[ja]) == fold_of(pv[jb]));
        }
        assert(paths@.take(i as int) =~= paths@);
        assert(strictly_sorted(path_views(paths@)));
        assert forall|a: int, b: int| 0 <= a < paths@.len() && 0 <= b < paths@.len() && fold_of((#[trigger] paths@[a])@) == fold_of(
            (#[trigger] paths@[b])@) implies a == b by {
            assert(pv[a] == paths@[a]@ && pv[b] == paths@[b]@);
        }
    }
    Ok(out)
}

} // verus!
