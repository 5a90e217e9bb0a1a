//! A target: the directory devset manages, what `.devset/config.toml` asks of it, and what
//! `.devset/state.toml` records of it.

use vstd::prelude::*;

use crate::errors::{TargetError, name_strings, name_texts};
use crate::format::Format;
use crate::name::{FeatureName, ProfileName, ProfileRef, SourceName};
use crate::order::{lex_le, text_le};
use crate::path::RelPath;
use crate::profile::Policy;
use crate::settings::MergeSpec;
use crate::commit::record_view;
use crate::digest::{Digest, Fingerprint};
use crate::gate::slot_view;
use crate::graph::{Enabler, enabler_text};
use crate::name::ScaffoldId;
use crate::part::{Scope, Slot};
use crate::source::{Oid, Source, source_text, source_view};
use crate::survey::{Print, print};
use crate::text::{chars_of, lemma_least, lemma_least_found, least, views};

verus! {

/// A `[[layers]]` entry: a profile, and the features the target turns on.
#[derive(Debug)]
pub struct LayerSpec {
    /// The profile, `source/name`.
    pub profile: ProfileRef,
    /// Its features to turn on, beside its default ones.
    pub features: Vec<FeatureName>,
    /// Whether its default features are on; unless a profile that requires it turns them on.
    pub default_features: bool,
}

impl LayerSpec {
    /// A layer of `profile`, its default features on and no other.
    pub fn new(profile: ProfileRef) -> (l: LayerSpec)
        ensures
            l.profile == profile,
            l.features@.len() == 0,
            l.default_features,
    {
        LayerSpec { profile, features: Vec::new(), default_features: true }
    }
}

/// A `[files."path"]` entry in `config.toml`, overriding the providing layer's.
#[derive(Debug, Default)]
pub struct Override {
    /// The layer that provides the file, when several do.
    pub from: Option<ProfileName>,
    /// How devset manages the file.
    pub policy: Option<Policy>,
    /// How a merged result is checked.
    pub validate: Option<Format>,
}

/// What was decided of a scaffold, once and for good.
#[derive(Clone, Copy, Debug, PartialEq, Eq, Structural)]
pub enum Scaffolded {
    /// Its sentinels were absent, so its files were written.
    Written,
    /// A sentinel was there: the target has its own, and the group was left out.
    Found,
}

impl Scaffolded {
    /// As `state.toml` writes it: `written` or `found`.
    pub open spec fn word(self) -> Seq<char> {
        match self {
            Scaffolded::Written => "written"@,
            Scaffolded::Found => "found"@,
        }
    }

    /// As `state.toml` writes it.
    pub fn as_str(self) -> (r: &'static str)
        ensures
            r@ == self.word(),
    {
        match self {
            Scaffolded::Written => "written",
            Scaffolded::Found => "found",
        }
    }
}

/// What was decided of a scaffold, and where it wrote its files: `state.toml`'s record.
#[derive(Debug)]
pub struct Scaffold {
    /// Whether the group was written, or found the target's own.
    pub decision: Scaffolded,
    /// Each file it wrote, by its path as the profile writes it, at its path in the target: a
    /// changed answer moves no file a scaffold wrote. In path order, each written path once.
    pub files: Vec<(RelPath, RelPath)>,
}

impl Clone for Scaffold {
    fn clone(&self) -> (out: Self)
        ensures
            out.decision == self.decision,
            out.files@ == self.files@,
    {
        let mut files: Vec<(RelPath, RelPath)> = Vec::new();
        let mut i: usize = 0;
        while i < self.files.len()
            invariant
                i <= self.files@.len(),
                files@ == self.files@.take(i as int),
            decreases self.files@.len() - i,
        {
            files.push((self.files[i].0.clone(), self.files[i].1.clone()));
            i += 1;
            assert(self.files@.take(i as int) == self.files@.take(i - 1).push(self.files@[i - 1]));
        }
        assert(self.files@.take(self.files@.len() as int) == self.files@);
        Scaffold { decision: self.decision, files }
    }
}

/// What devset recorded for one file, or one part: its scope, its content, and its policy.
#[derive(Debug)]
pub struct Record {
    /// How much of the file it is.
    pub scope: crate::part::Scope,
    /// Its content, as recorded.
    pub fingerprint: crate::digest::Fingerprint,
    /// How it was managed when recorded.
    pub policy: Policy,
}


/// A layer, as values: its source, its profile, the features it lists, and whether its default
/// features are on.
pub open spec fn layer_view(l: LayerSpec) -> (Seq<char>, Seq<char>, Seq<Seq<char>>, bool) {
    (l.profile.source@, l.profile.profile@, feature_texts(l.features@), l.default_features)
}

/// The names of `features`.
pub open spec fn feature_texts(features: Seq<FeatureName>) -> Seq<Seq<char>> {
    features.map_values(|f: FeatureName| f@)
}

/// Layers, as values.
pub open spec fn layers_view(layers: Seq<LayerSpec>) -> Seq<(Seq<char>, Seq<char>, Seq<Seq<char>>, bool)> {
    layers.map_values(|l: LayerSpec| layer_view(l))
}

/// The profile names of `layers`.
pub open spec fn layer_names(layers: Seq<LayerSpec>) -> Seq<Seq<char>> {
    layers.map_values(|l: LayerSpec| l.profile.profile@)
}

/// Where the layer that applies the profile named `name` stands: the first that does.
pub open spec fn layer_at(layers: Seq<LayerSpec>, name: Seq<char>) -> Option<int> {
    least(layers.len() as int, |i: int| layers[i].profile.profile@ == name)
}

/// The first layer that applies a profile an earlier layer applies too.
pub open spec fn twice_at(layers: Seq<LayerSpec>) -> Option<int> {
    least(
        layers.len() as int,
        |i: int| exists|j: int| 0 <= j < i && layers[j].profile.profile@ == layers[i].profile.profile@,
    )
}

/// Where the source named `name` stands among `sources`: the first so named.
pub open spec fn source_at(sources: Seq<(SourceName, Source)>, name: Seq<char>) -> Option<int> {
    least(sources.len() as int, |i: int| sources[i].0@ == name)
}

/// Where a source named `name` goes among `sources`, kept in name order: before the first
/// named after it.
pub open spec fn source_slot(sources: Seq<(SourceName, Source)>, name: Seq<char>) -> int {
    match least(sources.len() as int, |i: int| !lex_le(sources[i].0@, name)) {
        Some(i) => i,
        None => sources.len() as int,
    }
}

/// The names of `sources`.
pub open spec fn source_names(sources: Seq<(SourceName, Source)>) -> Seq<Seq<char>> {
    sources.map_values(|s: (SourceName, Source)| s.0@)
}

/// Sources, as values.
pub open spec fn sources_view(sources: Seq<(SourceName, Source)>) -> Seq<(Seq<char>, (bool, Seq<char>, (int, Seq<char>), Option<Seq<char>>))> {
    sources.map_values(|s: (SourceName, Source)| (s.0@, source_view(s.1)))
}

/// Whether `features` lists `f`.
pub open spec fn lists(features: Seq<Seq<char>>, f: Seq<char>) -> bool {
    features.contains(f)
}

/// `.devset/config.toml`: the sources, the layers, and the target's word on every setting they
/// carry.
#[derive(Debug)]
pub struct Config {
    /// Where profiles come from, each named once, in name order.
    pub sources: Vec<(SourceName, Source)>,
    /// Profiles to apply, in order.
    pub layers: Vec<LayerSpec>,
    /// Merge settings; these override every layer's.
    pub merge: MergeSpec,
    /// Overrides of the layers' `[files]` entries, by path.
    pub files: Vec<(RelPath, Override)>,
}

impl Default for Config {
    fn default() -> (c: Config)
        ensures
            c.sources@.len() == 0,
            c.layers@.len() == 0,
            c.merge.on_conflict is None,
            c.merge.driver is None,
            c.files@.len() == 0,
    {
        Config { sources: Vec::new(), layers: Vec::new(), merge: MergeSpec { on_conflict: None, driver: None }, files: Vec::new() }
    }
}

impl Config {
    /// Where the layer that applies the profile named `name` stands.
    pub fn position(&self, name: &ProfileName) -> (r: Option<usize>)
        ensures
            match r {
                Some(i) => layer_at(self.layers@, name@) == Some(i as int),
                None => layer_at(self.layers@, name@) is None,
            },
    {
        let ghost p = |i: int| self.layers@[i].profile.profile@ == name@;
        let mut i: usize = 0;
        while i < self.layers.len()
            invariant
                i <= self.layers@.len(),
                p == (|i: int| self.layers@[i].profile.profile@ == name@),
                forall|j: int| 0 <= j < i ==> !#[trigger] p(j),
            decreases self.layers@.len() - i,
        {
            if self.layers[i].profile.profile.same(name) {
                proof {
                    lemma_least(self.layers@.len() as int, p, i as int);
                }
                return Some(i);
            }
            i += 1;
        }
        None
    }

    /// The layer that applies the profile named `name`.
    pub fn layer(&self, name: &ProfileName) -> (r: Option<&LayerSpec>)
        ensures
            match r {
                Some(l) => layer_at(self.layers@, name@) matches Some(i) && *l == self.layers@[i],
                None => layer_at(self.layers@, name@) is None,
            },
    {
        proof {
            lemma_least_found(self.layers@.len() as int, |i: int| self.layers@[i].profile.profile@ == name@);
        }
        match self.position(name) {
            Some(i) => Some(&self.layers[i]),
            None => None,
        }
    }
}

impl Config {
    /// The position of the layer that applies the profile named `name`; else the error that
    /// names every layer.
    pub fn find_layer(&self, name: &ProfileName) -> (r: Result<usize, TargetError>)
        ensures
            match r {
                Ok(i) => layer_at(self.layers@, name@) == Some(i as int),
                Err(e) => layer_at(self.layers@, name@) is None && match e {
                    TargetError::NoSuchLayer { name: n, names } => n@ == name@ && views(names@)
                        == layer_names(self.layers@),
                    _ => false,
                },
            },
    {
        match self.position(name) {
            Some(i) => Ok(i),
            None => {
                let mut names: Vec<String> = Vec::new();
                let mut i: usize = 0;
                while i < self.layers.len()
                    invariant
                        i <= self.layers@.len(),
                        views(names@) == layer_names(self.layers@).take(i as int),
                    decreases self.layers@.len() - i,
                {
                    let ghost was = views(names@);
                    names.push(self.layers[i].profile.profile.as_str().to_owned());
                    assert(views(names@) =~= was.push(self.layers@[i as int].profile.profile@));
                    i += 1;
                    assert(views(names@) =~= layer_names(self.layers@).take(i as int));
                }
                assert(layer_names(self.layers@).take(i as int) =~= layer_names(self.layers@));
                Err(TargetError::NoSuchLayer { name: name.as_str().to_owned(), names })
            },
        }
    }

    /// This configuration, refused when `old` (its layers name locations, as devset 0.1's do)
    /// or when it lists one layer twice; the error names the first repeated layer.
    pub fn checked(self, old: bool) -> (r: Result<Config, TargetError>)
        ensures
            old ==> r matches Err(TargetError::OldConfig),
            !old ==> match twice_at(self.layers@) {
                Some(i) => (r matches Err(TargetError::LayerTwice { layer }) && layer
                    == self.layers@[i].profile.profile),
                None => r == Ok::<Config, TargetError>(self),
            },
    {
        if old {
            return Err(TargetError::OldConfig);
        }
        let ghost layers = self.layers@;
        let ghost p = |i: int| exists|j: int| 0 <= j < i && layers[j].profile.profile@ == layers[i].profile.profile@;
        let mut i: usize = 0;
        while i < self.layers.len()
            invariant
                !old,
                i <= layers.len(),
                layers == self.layers@,
                p == (|i: int| exists|j: int| 0 <= j < i && layers[j].profile.profile@ == layers[i].profile.profile@),
                forall|k: int| 0 <= k < i ==> !#[trigger] p(k),
            decreases layers.len() - i,
        {
            let mut j: usize = 0;
            while j < i
                invariant
                    !old,
                    j <= i < layers.len(),
                    layers == self.layers@,
                    p == (|i: int| exists|j: int| 0 <= j < i && layers[j].profile.profile@ == layers[i].profile.profile@),
                    forall|k: int| 0 <= k < i ==> !#[trigger] p(k),
                    forall|k: int| 0 <= k < j ==> layers[k].profile.profile@ != layers[i as int].profile.profile@,
                decreases i - j,
            {
                if self.layers[j].profile.profile.same(&self.layers[i].profile.profile) {
                    proof {
                        assert(0 <= j < i && layers[j as int].profile.profile@ == layers[i as int].profile.profile@);
                        assert(p(i as int));
                        lemma_least(layers.len() as int, p, i as int);
                    }
                    let layer = self.layers[i].profile.profile.clone();
                    return Err(TargetError::LayerTwice { layer });
                }
                j += 1;
            }
            assert(!p(i as int));
            i += 1;
        }
        proof {
            lemma_least_found(layers.len() as int, p);
        }
        Ok(self)
    }

    /// Appends `layer` as the last layer.
    ///
    /// Refused when a layer already applies its profile, or when `[sources]` does not name its
    /// source; the configuration then stays as it was.
    pub fn add_layer(&mut self, layer: LayerSpec) -> (r: Result<(), TargetError>)
        ensures
            final(self).sources == old(self).sources,
            final(self).merge == old(self).merge,
            final(self).files == old(self).files,
            layer_at(old(self).layers@, layer.profile.profile@) is Some ==> (r matches Err(TargetError::DuplicateLayer { layer: l }) && l
                == layer.profile.profile && final(self).layers == old(self).layers),
            layer_at(old(self).layers@, layer.profile.profile@) is None && source_at(old(self).sources@, layer.profile.source@)
                is None ==> final(self).layers == old(self).layers && match r {
                Err(TargetError::NoSuchSource { name, sources, layers }) => name@ == layer.profile.source@
                    && sources@.len() == old(self).sources@.len() && (forall|k: int| 0 <= k < sources@.len() ==> #[trigger] sources@[k]@
                    == old(self).sources@[k].0@) && layers@.len() == 1 && layers@[0].source@ == layer.profile.source@
                    && layers@[0].profile@ == layer.profile.profile@,
                _ => false,
            },
            layer_at(old(self).layers@, layer.profile.profile@) is None && source_at(old(self).sources@, layer.profile.source@)
                is Some ==> r is Ok && final(self).layers@ == old(self).layers@.push(layer),
    {
        if self.position(&layer.profile.profile).is_some() {
            return Err(TargetError::DuplicateLayer { layer: layer.profile.profile });
        }
        match self.source_position(&layer.profile.source) {
            Some(_) => {
                self.layers.push(layer);
                Ok(())
            },
            None => {
                let mut sources: Vec<SourceName> = Vec::new();
                let mut i: usize = 0;
                while i < self.sources.len()
                    invariant
                        i <= self.sources@.len(),
                        sources@.len() == i,
                        forall|k: int| 0 <= k < i ==> #[trigger] sources@[k]@ == self.sources@[k].0@,
                    decreases self.sources@.len() - i,
                {
                    sources.push(self.sources[i].0.clone());
                    i += 1;
                }
                let name = layer.profile.source.clone();
                let mut layers: Vec<ProfileRef> = Vec::new();
                layers.push(layer.profile);
                Err(TargetError::NoSuchSource { name, sources, layers })
            },
        }
    }

    /// Where the source named `name` stands.
    pub fn source_position(&self, name: &SourceName) -> (r: Option<usize>)
        ensures
            match r {
                Some(i) => source_at(self.sources@, name@) == Some(i as int),
                None => source_at(self.sources@, name@) is None,
            },
    {
        let ghost p = |i: int| self.sources@[i].0@ == name@;
        let mut i: usize = 0;
        while i < self.sources.len()
            invariant
                i <= self.sources@.len(),
                p == (|i: int| self.sources@[i].0@ == name@),
                forall|j: int| 0 <= j < i ==> !#[trigger] p(j),
            decreases self.sources@.len() - i,
        {
            if self.sources[i].0.same(name) {
                proof {
                    lemma_least(self.sources@.len() as int, p, i as int);
                }
                return Some(i);
            }
            i += 1;
        }
        None
    }
}

/// `name` in `.devset/`, as users know it.
pub fn label(name: &str) -> (out: String)
    ensures
        out@ == ".devset/"@ + name@,
{
    crate::text::cat(".devset/", name)
}

/// Whether the override `o` picks the layer named `name`.
pub open spec fn picks(o: Override, name: Seq<char>) -> bool {
    o.from matches Some(n) && n@ == name
}

/// Whether `features` lists a feature named `f`.
pub fn lists_feature(features: &Vec<FeatureName>, f: &FeatureName) -> (r: bool)
    ensures
        r == lists(feature_texts(features@), f@),
{
    let mut i: usize = 0;
    while i < features.len()
        invariant
            i <= features@.len(),
            forall|k: int| 0 <= k < i ==> features@[k]@ != f@,
        decreases features@.len() - i,
    {
        if features[i].same(f) {
            assert(feature_texts(features@)[i as int] == f@);
            return true;
        }
        i += 1;
    }
    proof {
        if lists(feature_texts(features@), f@) {
            let k = choose|k: int| 0 <= k < feature_texts(features@).len() && feature_texts(features@)[k] == f@;
            assert(features@[k]@ != f@);
        }
    }
    false
}

impl Config {
    /// Names `source` `name` in `[sources]`, in name order; `Ok(false)` when it already names
    /// that source, and nothing changes.
    ///
    /// Refused when `name` already names another source.
    pub fn add_source(&mut self, name: SourceName, source: Source) -> (r: Result<bool, TargetError>)
        ensures
            final(self).layers == old(self).layers,
            final(self).merge == old(self).merge,
            final(self).files == old(self).files,
            match source_at(old(self).sources@, name@) {
                Some(i) => final(self).sources == old(self).sources && if source_view(old(self).sources@[i].1)
                    == source_view(source) {
                    r == Ok::<bool, TargetError>(false)
                } else {
                    r matches Err(TargetError::SourceExists { name: n, location }) && n@ == name@
                        && location@ == source_text(old(self).sources@[i].1)
                },
                None => r == Ok::<bool, TargetError>(true) && final(self).sources@ == old(self).sources@.insert(
                    source_slot(old(self).sources@, name@),
                    (name, source),
                ),
            },
    {
        proof {
            lemma_least_found(self.sources@.len() as int, |i: int| self.sources@[i].0@ == name@);
        }
        match self.source_position(&name) {
            Some(i) => {
                if self.sources[i].1.same(&source) {
                    Ok(false)
                } else {
                    let location = self.sources[i].1.to_string();
                    Err(TargetError::SourceExists { name, location })
                }
            },
            None => {
                let key = chars_of(name.as_str());
                let ghost p = |i: int| !lex_le(self.sources@[i].0@, name@);
                let mut k: usize = 0;
                while k < self.sources.len() && text_le(chars_of(self.sources[k].0.as_str()).as_slice(), key.as_slice())
                    invariant
                        k <= self.sources@.len(),
                        key@ == name@,
                        p == (|i: int| !lex_le(self.sources@[i].0@, name@)),
                        forall|j: int| 0 <= j < k ==> !#[trigger] p(j),
                    decreases self.sources@.len() - k,
                {
                    k += 1;
                }
                proof {
                    if k < self.sources@.len() {
                        lemma_least(self.sources@.len() as int, p, k as int);
                    }
                    lemma_least_found(self.sources@.len() as int, p);
                }
                assert(k == source_slot(self.sources@, name@));
                self.sources.insert(k, (name, source));
                Ok(true)
            },
        }
    }

    /// Removes the layer that applies the profile named `name`, with every `[files]` override
    /// that picks it; its source stays. `false`, and nothing changes, when no layer does.
    pub fn remove_layer(&mut self, name: &ProfileName) -> (r: bool)
        ensures
            final(self).sources == old(self).sources,
            final(self).merge == old(self).merge,
            match layer_at(old(self).layers@, name@) {
                None => !r && final(self).layers == old(self).layers && final(self).files == old(self).files,
                Some(i) => r && final(self).layers@ == old(self).layers@.remove(i) && final(self).files@
                    == old(self).files@.filter(|f: (RelPath, Override)| !picks(f.1, name@)),
            },
    {
        proof {
            lemma_least_found(self.layers@.len() as int, |i: int| self.layers@[i].profile.profile@ == name@);
        }
        let i = match self.position(name) {
            Some(i) => i,
            None => return false,
        };
        self.layers.remove(i);
        let mut rest: Vec<(RelPath, Override)> = Vec::new();
        std::mem::swap(&mut rest, &mut self.files);
        let ghost all = rest@;
        let ghost keep = |f: (RelPath, Override)| !picks(f.1, name@);
        let total = rest.len();
        let mut done: usize = 0;
        while rest.len() > 0
            invariant
                total == all.len(),
                done <= all.len(),
                rest@ == all.skip(done as int),
                self.files@ == all.take(done as int).filter(keep),
                keep == (|f: (RelPath, Override)| !picks(f.1, name@)),
                self.sources == old(self).sources,
                self.merge == old(self).merge,
                self.layers@ == old(self).layers@.remove(i as int),
                all == old(self).files@,
            decreases rest@.len(),
        {
            let f = rest.remove(0);
            proof {
                assert(f == all[done as int]);
                assert(all.take(done + 1).drop_last() =~= all.take(done as int));
                reveal(Seq::filter);
                assert(all.skip(done + 1) =~= all.skip(done as int).drop_first());
            }
            let picked = match &f.1.from {
                Some(n) => n.same(name),
                None => false,
            };
            if !picked {
                self.files.push(f);
            }
            done += 1;
        }
        assert(all.take(all.len() as int) =~= all);
        true
    }

    /// Removes the `[files."path"]` override.
    pub fn remove_override(&mut self, path: &RelPath) -> (r: ())
        ensures
            final(self).sources == old(self).sources,
            final(self).layers == old(self).layers,
            final(self).merge == old(self).merge,
            final(self).files@ == old(self).files@.filter(|f: (RelPath, Override)| f.0@ != path@),
    {
        let mut rest: Vec<(RelPath, Override)> = Vec::new();
        std::mem::swap(&mut rest, &mut self.files);
        let ghost all = rest@;
        let ghost keep = |f: (RelPath, Override)| f.0@ != path@;
        let total = rest.len();
        let mut done: usize = 0;
        while rest.len() > 0
            invariant
                total == all.len(),
                done <= all.len(),
                rest@ == all.skip(done as int),
                self.files@ == all.take(done as int).filter(keep),
                keep == (|f: (RelPath, Override)| f.0@ != path@),
                self.sources == old(self).sources,
                self.merge == old(self).merge,
                self.layers == old(self).layers,
                all == old(self).files@,
            decreases rest@.len(),
        {
            let f = rest.remove(0);
            proof {
                assert(f == all[done as int]);
                assert(all.take(done + 1).drop_last() =~= all.take(done as int));
                reveal(Seq::filter);
                assert(all.skip(done + 1) =~= all.skip(done as int).drop_first());
            }
            if !f.0.same(path) {
                self.files.push(f);
            }
            done += 1;
        }
        assert(all.take(all.len() as int) =~= all);
    }
}

/// The defaults `defaults` asks for, where they change what `current` has.
pub open spec fn defaults_change(defaults: Option<bool>, current: bool) -> Option<bool> {
    match defaults {
        Some(on) => if on != current {
            Some(on)
        } else {
            None
        },
        None => None,
    }
}

/// Copies of `features`, in order.
fn copy_features(features: &Vec<FeatureName>) -> (out: Vec<FeatureName>)
    ensures
        out@ == features@,
{
    let mut out: Vec<FeatureName> = Vec::new();
    let mut i: usize = 0;
    while i < features.len()
        invariant
            i <= features@.len(),
            out@ == features@.take(i as int),
        decreases features@.len() - i,
    {
        out.push(features[i].clone());
        i += 1;
        assert(out@ =~= features@.take(i as int));
    }
    assert(features@.take(i as int) =~= features@);
    out
}

impl Config {
    /// Turns on `features` of the layer that applies the profile named `name`, beside those it
    /// lists, and its default features on or off where `defaults` says. Returns what changed:
    /// the features it did not list, and the defaults, where they change.
    ///
    /// Refused, and nothing changes, when no layer applies the profile.
    pub fn turn_on(&mut self, name: &ProfileName, features: &Vec<FeatureName>, defaults: Option<bool>) -> (r: Result<(Vec<FeatureName>, Option<bool>), TargetError>)
        ensures
            final(self).sources == old(self).sources,
            final(self).merge == old(self).merge,
            final(self).files == old(self).files,
            match r {
                Err(e) => final(self).layers == old(self).layers && layer_at(old(self).layers@, name@) is None
                    && match e {
                    TargetError::NoSuchLayer { name: n, names } => n@ == name@ && views(names@)
                        == layer_names(old(self).layers@),
                    _ => false,
                },
                Ok((added, d)) => layer_at(old(self).layers@, name@) matches Some(i) && {
                    let l = old(self).layers@[i];
                    &&& feature_texts(added@) == feature_texts(features@).filter(
                        |f: Seq<char>| !lists(feature_texts(l.features@), f),
                    )
                    &&& d == defaults_change(defaults, l.default_features)
                    &&& layers_view(final(self).layers@) == layers_view(old(self).layers@).update(
                        i,
                        (l.profile.source@, l.profile.profile@, feature_texts(l.features@) + feature_texts(added@), match d {
                            Some(on) => on,
                            None => l.default_features,
                        }),
                    )
                },
            },
    {
        let i = match self.find_layer(name) {
            Ok(i) => i,
            Err(e) => return Err(e),
        };
        proof {
            lemma_least_found(self.layers@.len() as int, |i: int| self.layers@[i].profile.profile@ == name@);
        }
        let ghost l = self.layers@[i as int];
        let ghost listed = feature_texts(l.features@);
        let ghost keep = |f: Seq<char>| !lists(listed, f);
        let mut added: Vec<FeatureName> = Vec::new();
        let mut k: usize = 0;
        while k < features.len()
            invariant
                k <= features@.len(),
                i < self.layers@.len(),
                l == self.layers@[i as int],
                listed == feature_texts(l.features@),
                keep == (|f: Seq<char>| !lists(listed, f)),
                feature_texts(added@) == feature_texts(features@).take(k as int).filter(keep),
            decreases features@.len() - k,
        {
            proof {
                let all = feature_texts(features@);
                assert(all.take(k + 1).drop_last() =~= all.take(k as int));
                assert(all.take(k + 1).last() == features@[k as int]@);
                reveal(Seq::filter);
            }
            if !lists_feature(&self.layers[i].features, &features[k]) {
                let ghost was = feature_texts(added@);
                added.push(features[k].clone());
                assert(feature_texts(added@) =~= was.push(features@[k as int]@));
            }
            k += 1;
        }
        assert(feature_texts(features@).take(k as int) =~= feature_texts(features@));
        let current = self.layers[i].default_features;
        let d = match defaults {
            Some(on) => if on != current {
                Some(on)
            } else {
                None
            },
            None => None,
        };
        let mut listed_now = copy_features(&self.layers[i].features);
        let more = copy_features(&added);
        let ghost (x, y) = (listed_now@, more@);
        let mut more = more;
        listed_now.append(&mut more);
        assert(feature_texts(listed_now@) =~= feature_texts(x) + feature_texts(y));
        let layer = LayerSpec {
            profile: self.layers[i].profile.clone(),
            features: listed_now,
            default_features: match d {
                Some(on) => on,
                None => current,
            },
        };
        let ghost before = layers_view(self.layers@);
        self.layers.set(i, layer);
        assert(layers_view(self.layers@) =~= before.update(
            i as int,
            (l.profile.source@, l.profile.profile@, feature_texts(l.features@) + feature_texts(added@), match d {
                Some(on) => on,
                None => l.default_features,
            }),
        ));
        Ok((added, d))
    }

    /// Turns off `features` of the layer that applies the profile named `name`: takes them out of
    /// those it lists. The layer stays.
    ///
    /// Refused, and nothing changes, when no layer applies the profile, or when the layer does not
    /// list one of `features`: the error names the first.
    pub fn turn_off(&mut self, name: &ProfileName, features: &Vec<FeatureName>) -> (r: Result<(), TargetError>)
        ensures
            final(self).sources == old(self).sources,
            final(self).merge == old(self).merge,
            final(self).files == old(self).files,
            match layer_at(old(self).layers@, name@) {
                None => final(self).layers == old(self).layers && match r {
                    Err(TargetError::NoSuchLayer { name: n, names }) => n@ == name@ && views(names@)
                        == layer_names(old(self).layers@),
                    _ => false,
                },
                Some(i) => {
                    let l = old(self).layers@[i];
                    match least(features@.len() as int, |k: int| !lists(feature_texts(l.features@), features@[k]@)) {
                        Some(k) => final(self).layers == old(self).layers && match r {
                            Err(TargetError::NotListed { layer, feature, listed }) => layer@ == name@
                                && feature@ == features@[k]@ && feature_texts(listed@) == feature_texts(l.features@),
                            _ => false,
                        },
                        None => r is Ok && layers_view(final(self).layers@) == layers_view(old(self).layers@).update(
                            i,
                            (l.profile.source@, l.profile.profile@, feature_texts(l.features@).filter(
                                |f: Seq<char>| !lists(feature_texts(features@), f),
                            ), l.default_features),
                        ),
                    }
                },
            },
    {
        let i = match self.find_layer(name) {
            Ok(i) => i,
            Err(e) => return Err(e),
        };
        proof {
            lemma_least_found(self.layers@.len() as int, |i: int| self.layers@[i].profile.profile@ == name@);
        }
        let ghost l = self.layers@[i as int];
        let ghost p = |k: int| !lists(feature_texts(l.features@), features@[k]@);
        let mut k: usize = 0;
        while k < features.len()
            invariant
                k <= features@.len(),
                i < self.layers@.len(),
                l == self.layers@[i as int],
                p == (|k: int| !lists(feature_texts(l.features@), features@[k]@)),
                forall|j: int| 0 <= j < k ==> !#[trigger] p(j),
                layer_at(old(self).layers@, name@) == Some(i as int),
                *self == *old(self),
            decreases features@.len() - k,
        {
            if !lists_feature(&self.layers[i].features, &features[k]) {
                proof {
                    lemma_least(features@.len() as int, p, k as int);
                }
                let listed = copy_features(&self.layers[i].features);
                let feature = features[k].clone();
                let layer = name.clone();
                return Err(TargetError::NotListed { layer, feature, listed });
            }
            k += 1;
        }
        proof {
            lemma_least_found(features@.len() as int, p);
        }
        let ghost all = feature_texts(l.features@);
        let ghost keep = |f: Seq<char>| !lists(feature_texts(features@), f);
        let mut kept: Vec<FeatureName> = Vec::new();
        let mut j: usize = 0;
        while j < self.layers[i].features.len()
            invariant
                j <= l.features@.len(),
                i < self.layers@.len(),
                l == self.layers@[i as int],
                all == feature_texts(l.features@),
                keep == (|f: Seq<char>| !lists(feature_texts(features@), f)),
                feature_texts(kept@) == all.take(j as int).filter(keep),
            decreases l.features@.len() - j,
        {
            proof {
                assert(all.take(j + 1).drop_last() =~= all.take(j as int));
                assert(all.take(j + 1).last() == l.features@[j as int]@);
                reveal(Seq::filter);
            }
            if !lists_feature(features, &self.layers[i].features[j]) {
                let ghost was = feature_texts(kept@);
                kept.push(self.layers[i].features[j].clone());
                assert(feature_texts(kept@) =~= was.push(l.features@[j as int]@));
            }
            j += 1;
        }
        assert(all.take(j as int) =~= all);
        let layer = LayerSpec {
            profile: self.layers[i].profile.clone(),
            features: kept,
            default_features: self.layers[i].default_features,
        };
        let ghost before = layers_view(self.layers@);
        self.layers.set(i, layer);
        assert(layers_view(self.layers@) =~= before.update(
            i as int,
            (l.profile.source@, l.profile.profile@, all.filter(keep), l.default_features),
        ));
        Ok(())
    }
}

/// What one active profile resolved to: an entry of `lock.toml`.
#[derive(Debug)]
pub struct Locked {
    /// The profile's name.
    pub name: ProfileName,
    /// Commit of its source, for a versioned one; every profile of a source has one.
    pub rev: Option<Oid>,
    /// Digest of its manifest, rendered payload and features.
    pub digest: Digest,
    /// Its source, as configured when locked.
    pub source: Source,
    /// Every feature that was on, with who turned it on, as written.
    pub features: Vec<(FeatureName, Vec<String>)>,
}

/// Who turned a feature on, as the lock writes each.
pub open spec fn enabler_texts(by: Seq<Enabler>) -> Seq<Seq<char>> {
    by.map_values(|e: Enabler| enabler_text(e))
}

impl Locked {
    /// Who turned each of `features` on, as the lock writes it.
    pub fn features(features: &Vec<(FeatureName, Vec<Enabler>)>) -> (out: Vec<(FeatureName, Vec<String>)>)
        ensures
            out@.len() == features@.len(),
            forall|i: int| 0 <= i < out@.len() ==> #[trigger] out@[i].0 == features@[i].0 && views(out@[i].1@)
                == enabler_texts(features@[i].1@),
    {
        let mut out: Vec<(FeatureName, Vec<String>)> = Vec::new();
        let mut i: usize = 0;
        while i < features.len()
            invariant
                i <= features@.len(),
                out@.len() == i,
                forall|k: int| 0 <= k < i ==> #[trigger] out@[k].0 == features@[k].0 && views(out@[k].1@)
                    == enabler_texts(features@[k].1@),
            decreases features@.len() - i,
        {
            let by = &features[i].1;
            let mut written: Vec<String> = Vec::new();
            let mut j: usize = 0;
            while j < by.len()
                invariant
                    j <= by@.len(),
                    views(written@) == enabler_texts(by@).take(j as int),
                decreases by@.len() - j,
            {
                let ghost was = views(written@);
                written.push(by[j].to_string());
                assert(views(written@) =~= was.push(enabler_text(by@[j as int])));
                assert(enabler_texts(by@).take(j + 1) =~= enabler_texts(by@).take(j as int).push(enabler_text(by@[j as int])));
                j += 1;
            }
            assert(enabler_texts(by@).take(j as int) =~= enabler_texts(by@));
            out.push((features[i].0.clone(), written));
            i += 1;
        }
        out
    }
}

/// `lock.toml`: one entry per active profile, in the order they apply.
#[derive(Debug)]
pub struct Lock {
    /// The entries.
    pub profiles: Vec<Locked>,
}

impl Lock {
    /// A lock of `profiles`, in order.
    pub fn new(profiles: Vec<Locked>) -> (l: Lock)
        ensures
            l.profiles == profiles,
    {
        Lock { profiles }
    }

    /// The commit the lock pins `source` to: that of its first entry from `source` that has one.
    ///
    /// Found by source, not position, so removing or reordering layers leaves the others pinned.
    pub fn pinned(&self, source: &Source) -> (r: Option<&Oid>)
        ensures
            match least(self.profiles@.len() as int, |i: int| source_view(self.profiles@[i].source) == source_view(*source)
                && self.profiles@[i].rev is Some) {
                Some(i) => r == Some(&self.profiles@[i].rev->0),
                None => r is None,
            },
    {
        let ghost p = |i: int| source_view(self.profiles@[i].source) == source_view(*source) && self.profiles@[i].rev is Some;
        let mut i: usize = 0;
        while i < self.profiles.len()
            invariant
                i <= self.profiles@.len(),
                p == (|i: int| source_view(self.profiles@[i].source) == source_view(*source) && self.profiles@[i].rev is Some),
                forall|j: int| 0 <= j < i ==> !#[trigger] p(j),
            decreases self.profiles@.len() - i,
        {
            let locked = &self.profiles[i];
            if locked.source.same(source) {
                match &locked.rev {
                    Some(rev) => {
                        proof {
                            lemma_least(self.profiles@.len() as int, p, i as int);
                        }
                        return Some(rev);
                    },
                    None => {},
                }
            }
            i += 1;
        }
        proof {
            lemma_least_found(self.profiles@.len() as int, p);
        }
        None
    }

    /// The digest the lock recorded for the profile `name` from `source`: its first such entry's.
    pub fn locked(&self, source: &Source, name: &ProfileName) -> (r: Option<Digest>)
        ensures
            match least(self.profiles@.len() as int, |i: int| source_view(self.profiles@[i].source) == source_view(*source)
                && self.profiles@[i].name@ == name@) {
                Some(i) => r matches Some(d) && d@ == self.profiles@[i].digest@,
                None => r is None,
            },
    {
        let ghost p = |i: int| source_view(self.profiles@[i].source) == source_view(*source) && self.profiles@[i].name@ == name@;
        let mut i: usize = 0;
        while i < self.profiles.len()
            invariant
                i <= self.profiles@.len(),
                p == (|i: int| source_view(self.profiles@[i].source) == source_view(*source) && self.profiles@[i].name@ == name@),
                forall|j: int| 0 <= j < i ==> !#[trigger] p(j),
            decreases self.profiles@.len() - i,
        {
            let locked = &self.profiles[i];
            if locked.source.same(source) && locked.name.same(name) {
                proof {
                    lemma_least(self.profiles@.len() as int, p, i as int);
                }
                return Some(locked.digest.clone());
            }
            i += 1;
        }
        proof {
            lemma_least_found(self.profiles@.len() as int, p);
        }
        None
    }
}

/// A record, as values: its slot, then its scope, digests and policy.
pub type RecordView = ((Seq<char>, Option<Seq<char>>), (Scope, Print, Policy));

/// Records, as values.
pub open spec fn records_view(rs: Seq<(Slot, Record)>) -> Seq<RecordView> {
    rs.map_values(|r: (Slot, Record)| (slot_view(r.0), record_view(r.1)))
}

/// Whether `r` records a whole file.
pub open spec fn whole(r: (Slot, Record)) -> bool {
    r.0.part is None
}

/// The whole-file records among `rs`, as `state.toml` keeps them: path, digests, policy.
pub open spec fn state_files(rs: Seq<(Slot, Record)>) -> Seq<(Seq<char>, Print, Policy)> {
    rs.filter(|r: (Slot, Record)| whole(r)).map_values(
        |r: (Slot, Record)| (r.0.path@, print(r.1.fingerprint), r.1.policy),
    )
}

/// The part records among `rs`, as `state.toml` keeps them: path, owner, and the record.
pub open spec fn state_parts(rs: Seq<(Slot, Record)>) -> Seq<(Seq<char>, Seq<char>, (Scope, Print, Policy))> {
    rs.filter(|r: (Slot, Record)| !whole(r)).map_values(
        |r: (Slot, Record)| (r.0.path@, r.0.part->0@, record_view(r.1)),
    )
}

/// What `state.toml` gives back of whole-file records `files` and part records `parts`: whole
/// files first, as `file`-scoped records.
pub open spec fn read_back(
    files: Seq<(Seq<char>, Print, Policy)>,
    parts: Seq<(Seq<char>, Seq<char>, (Scope, Print, Policy))>,
) -> Seq<RecordView> {
    files.map_values(|f: (Seq<char>, Print, Policy)| ((f.0, None::<Seq<char>>), (Scope::File, f.1, f.2)))
        + parts.map_values(|p: (Seq<char>, Seq<char>, (Scope, Print, Policy))| ((p.0, Some(p.1)), p.2))
}

/// `state.toml`: what was decided of each scaffold, and each managed file's and part's recorded
/// base.
#[derive(Debug)]
pub struct State {
    /// What was decided of each scaffold.
    pub scaffolds: Vec<(ScaffoldId, Scaffold)>,
    /// Each managed file's recorded base: its path, digests and policy.
    pub files: Vec<(RelPath, Fingerprint, Policy)>,
    /// Each part's recorded base: its file, the profile that owns it, and the record.
    pub parts: Vec<(RelPath, String, Record)>,
}

/// A state's whole-file records, as values.
pub open spec fn files_view(files: Seq<(RelPath, Fingerprint, Policy)>) -> Seq<(Seq<char>, Print, Policy)> {
    files.map_values(|f: (RelPath, Fingerprint, Policy)| (f.0@, print(f.1), f.2))
}

/// A state's part records, as values.
pub open spec fn parts_view(parts: Seq<(RelPath, String, Record)>) -> Seq<(Seq<char>, Seq<char>, (Scope, Print, Policy))> {
    parts.map_values(|p: (RelPath, String, Record)| (p.0@, p.1@, record_view(p.2)))
}

impl State {
    /// A state recording `records`, and what was decided of `scaffolds`.
    pub fn new(records: Vec<(Slot, Record)>, scaffolds: Vec<(ScaffoldId, Scaffold)>) -> (st: State)
        ensures
            st.scaffolds == scaffolds,
            files_view(st.files@) == state_files(records@),
            parts_view(st.parts@) == state_parts(records@),
    {
        let mut rest = records;
        let ghost all = rest@;
        let total = rest.len();
        let mut files: Vec<(RelPath, Fingerprint, Policy)> = Vec::new();
        let mut parts: Vec<(RelPath, String, Record)> = Vec::new();
        let mut done: usize = 0;
        while rest.len() > 0
            invariant
                total == all.len(),
                done <= all.len(),
                rest@ == all.skip(done as int),
                files_view(files@) == state_files(all.take(done as int)),
                parts_view(parts@) == state_parts(all.take(done as int)),
            decreases rest@.len(),
        {
            let (slot, record) = rest.remove(0);
            proof {
                assert(all.skip(done + 1) =~= all.skip(done as int).drop_first());
                assert(all.take(done + 1).drop_last() =~= all.take(done as int));
                assert(all.take(done + 1).last() == (slot, record));
                reveal(Seq::filter);
            }
            let ghost (fv, pv) = (files_view(files@), parts_view(parts@));
            let ghost r = (slot, record);
            let Slot { path, part } = slot;
            match part {
                None => {
                    files.push((path, record.fingerprint, record.policy));
                    assert(files_view(files@) =~= fv.push((r.0.path@, print(r.1.fingerprint), r.1.policy)));
                    assert(state_files(all.take(done + 1)) =~= fv.push((r.0.path@, print(r.1.fingerprint), r.1.policy)));
                    assert(state_parts(all.take(done + 1)) =~= pv);
                },
                Some(owner) => {
                    parts.push((path, owner, record));
                    assert(parts_view(parts@) =~= pv.push((r.0.path@, r.0.part->0@, record_view(r.1))));
                    assert(state_parts(all.take(done + 1)) =~= pv.push((r.0.path@, r.0.part->0@, record_view(r.1))));
                    assert(state_files(all.take(done + 1)) =~= fv);
                },
            }
            done += 1;
        }
        assert(all.take(done as int) =~= all);
        State { scaffolds, files, parts }
    }

    /// Every record, whole files first.
    pub fn records(&self) -> (out: Vec<(Slot, Record)>)
        ensures
            records_view(out@) == read_back(files_view(self.files@), parts_view(self.parts@)),
    {
        let mut out: Vec<(Slot, Record)> = Vec::new();
        let ghost fs = files_view(self.files@).map_values(
            |f: (Seq<char>, Print, Policy)| ((f.0, None::<Seq<char>>), (Scope::File, f.1, f.2)),
        );
        let ghost ps = parts_view(self.parts@).map_values(
            |p: (Seq<char>, Seq<char>, (Scope, Print, Policy))| ((p.0, Some(p.1)), p.2),
        );
        let mut i: usize = 0;
        while i < self.files.len()
            invariant
                i <= self.files@.len(),
                fs.len() == self.files@.len(),
                fs == files_view(self.files@).map_values(
                    |f: (Seq<char>, Print, Policy)| ((f.0, None::<Seq<char>>), (Scope::File, f.1, f.2)),
                ),
                records_view(out@) == fs.take(i as int),
            decreases self.files@.len() - i,
        {
            let (path, fingerprint, policy) = &self.files[i];
            let ghost was = records_view(out@);
            let slot = Slot::whole(path.clone());
            out.push((slot, Record { scope: Scope::File, fingerprint: fingerprint.clone(), policy: *policy }));
            assert(records_view(out@) =~= was.push(fs[i as int]));
            i += 1;
            assert(fs.take(i as int) =~= was.push(fs[i - 1]));
        }
        let mut j: usize = 0;
        while j < self.parts.len()
            invariant
                j <= self.parts@.len(),
                ps.len() == self.parts@.len(),
                ps == parts_view(self.parts@).map_values(
                    |p: (Seq<char>, Seq<char>, (Scope, Print, Policy))| ((p.0, Some(p.1)), p.2),
                ),
                fs.len() == self.files@.len(),
                records_view(out@) == fs + ps.take(j as int),
            decreases self.parts@.len() - j,
        {
            let (path, owner, record) = &self.parts[j];
            let ghost was = records_view(out@);
            let slot = Slot { path: path.clone(), part: Some(owner.clone()) };
            out.push((slot, Record { scope: record.scope, fingerprint: record.fingerprint.clone(), policy: record.policy }));
            assert(records_view(out@) =~= was.push(ps[j as int]));
            j += 1;
            assert(fs + ps.take(j as int) =~= was.push(ps[j - 1]));
        }
        assert(fs.take(self.files@.len() as int) =~= fs);
        assert(ps.take(j as int) =~= ps);
        out
    }
}

/// What `state.toml` records it gives back: a state made of records reads back every one of
/// them, whole files and parts alike, each as often as it was given (a whole file's record is
/// `file`-scoped, as every whole-file record is).
pub proof fn state_gives_back_every_record(rs: Seq<(Slot, Record)>)
    requires
        forall|k: int| 0 <= k < rs.len() && whole(#[trigger] rs[k]) ==> rs[k].1.scope == Scope::File,
    ensures
        read_back(state_files(rs), state_parts(rs)).to_multiset() == records_view(rs).to_multiset(),
    decreases rs.len(),
{
    broadcast use vstd::seq_lib::lemma_multiset_commutative, vstd::seq_lib::to_multiset_build, vstd::multiset::group_multiset_axioms;

    if rs.len() == 0 {
        assert(rs.filter(|r: (Slot, Record)| whole(r)) =~= Seq::empty()) by {
            reveal(Seq::filter);
        }
        assert(rs.filter(|r: (Slot, Record)| !whole(r)) =~= Seq::empty()) by {
            reveal(Seq::filter);
        }
        assert(read_back(state_files(rs), state_parts(rs)) =~= Seq::empty());
        assert(records_view(rs) =~= Seq::empty());
    } else {
        let s = rs.drop_last();
        let x = rs.last();
        assert forall|k: int| 0 <= k < s.len() && whole(#[trigger] s[k]) implies s[k].1.scope == Scope::File by {
            assert(s[k] == rs[k]);
        }
        state_gives_back_every_record(s);
        assert(rs.drop_last() == s);
        reveal(Seq::filter);
        let fa = |f: (Seq<char>, Print, Policy)| ((f.0, None::<Seq<char>>), (Scope::File, f.1, f.2));
        let pa = |p: (Seq<char>, Seq<char>, (Scope, Print, Policy))| ((p.0, Some(p.1)), p.2);
        let a = state_files(s).map_values(fa);
        let b = state_parts(s).map_values(pa);
        assert(read_back(state_files(s), state_parts(s)) == a + b);
        let v = (slot_view(x.0), record_view(x.1));
        assert(records_view(rs) =~= records_view(s).push(v));
        if whole(x) {
            assert(x.1.scope == Scope::File) by {
                assert(rs[rs.len() - 1] == x);
            }
            assert(state_files(rs) =~= state_files(s).push((x.0.path@, print(x.1.fingerprint), x.1.policy)));
            assert(state_parts(rs) =~= state_parts(s));
            assert(read_back(state_files(rs), state_parts(rs)) =~= a.push(v) + b);
            assert((a.push(v) + b).to_multiset() =~= (a + b).to_multiset().insert(v));
        } else {
            assert(state_files(rs) =~= state_files(s));
            assert(state_parts(rs) =~= state_parts(s).push((x.0.path@, x.0.part->0@, record_view(x.1))));
            assert(read_back(state_files(rs), state_parts(rs)) =~= a + b.push(v));
            assert((a + b.push(v)).to_multiset() =~= (a + b).to_multiset().insert(v));
        }
    }
}

} // verus!
