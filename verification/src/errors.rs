//! Why devset did not go through: a file that does not parse, a profile, or a target; and the
//! lists their messages are written with.

use vstd::prelude::*;

use crate::name::{FeatureName, ProfileName, ProfileRef, SourceName};
use crate::part::Scope;
use crate::path::RelPath;
use crate::text::{cat, decimal, decimal_of, debug_str, join_with, joined_with, quoted, views};

verus! {

/// This build's version, which a profile's `devset` requirement is checked against.
pub const VERSION: &'static str = "0.2.0";

/// `items`, comma-separated, with `and` before the last.
pub open spec fn listed(items: Seq<Seq<char>>) -> Seq<char> {
    if items.len() >= 2 {
        join_with(items.drop_last(), ", "@) + " and "@ + items.last()
    } else if items.len() == 1 {
        items[0]
    } else {
        Seq::empty()
    }
}

/// `items`, comma-separated, with `and` before the last.
pub fn list(items: &Vec<String>) -> (out: String)
    ensures
        out@ == listed(views(items@)),
{
    let n = items.len();
    if n >= 2 {
        let mut rest: Vec<String> = Vec::new();
        let mut i: usize = 0;
        while i < n - 1
            invariant
                n == items@.len(),
                n >= 2,
                i <= n - 1,
                rest@ == items@.take(i as int),
            decreases n - 1 - i,
        {
            rest.push(items[i].clone());
            i += 1;
            assert(items@.take(i as int) == items@.take(i - 1).push(items@[i - 1]));
        }
        assert(views(rest@) =~= views(items@).drop_last());
        let head = joined_with(&rest, ", ");
        let head = cat(head.as_str(), " and ");
        cat(head.as_str(), items[n - 1].as_str())
    } else if n == 1 {
        items[0].clone()
    } else {
        String::new()
    }
}

/// The names of `names`.
pub open spec fn name_texts(names: Seq<ProfileName>) -> Seq<Seq<char>> {
    names.map_values(|n: ProfileName| n@)
}

/// The names of `names`, as strings.
pub fn name_strings(names: &Vec<ProfileName>) -> (out: Vec<String>)
    ensures
        views(out@) == name_texts(names@),
{
    let mut out: Vec<String> = Vec::new();
    let mut i: usize = 0;
    while i < names.len()
        invariant
            i <= names@.len(),
            views(out@) == name_texts(names@.take(i as int)),
        decreases names@.len() - i,
    {
        out.push(names[i].as_str().to_owned());
        i += 1;
        assert(name_texts(names@.take(i as int)) =~= name_texts(names@.take(i - 1)).push(names@[i - 1]@));
        assert(views(out@) =~= name_texts(names@.take(i as int)));
    }
    assert(names@.take(names@.len() as int) == names@);
    out
}

/// `n` and `noun`, pluralised: `1 file`, `2 files`.
pub open spec fn plural_of(n: nat, noun: Seq<char>) -> Seq<char> {
    if n == 1 {
        "1 "@ + noun
    } else {
        decimal(n) + " "@ + noun + "s"@
    }
}

/// `n` and `noun`, pluralised.
pub fn plural(n: usize, noun: &str) -> (out: String)
    ensures
        out@ == plural_of(n as nat, noun@),
{
    if n == 1 {
        cat("1 ", noun)
    } else {
        let out = cat(decimal_of(n).as_str(), " ");
        let out = cat(out.as_str(), noun);
        cat(out.as_str(), "s")
    }
}

/// The layers `layers` lists, written `source/profile`.
pub open spec fn ref_texts(layers: Seq<ProfileRef>) -> Seq<Seq<char>> {
    layers.map_values(|r: ProfileRef| r.source@ + "/"@ + r.profile@)
}

/// `: the layer a/b names it`, or `: the layers a/b and a/c name it`, when `layers` is not
/// empty.
pub open spec fn naming_of(layers: Seq<ProfileRef>) -> Seq<char> {
    if layers.len() == 0 {
        Seq::empty()
    } else if layers.len() == 1 {
        ": the layer "@ + ref_texts(layers)[0] + " names it"@
    } else {
        ": the layers "@ + listed(ref_texts(layers)) + " name it"@
    }
}

/// `: the layers a/b and a/c name it`, when `layers` is not empty.
pub fn naming(layers: &Vec<ProfileRef>) -> (out: String)
    ensures
        out@ == naming_of(layers@),
{
    let mut written: Vec<String> = Vec::new();
    let mut i: usize = 0;
    while i < layers.len()
        invariant
            i <= layers@.len(),
            views(written@) == ref_texts(layers@.take(i as int)),
        decreases layers@.len() - i,
    {
        written.push(layers[i].to_string());
        i += 1;
        assert(ref_texts(layers@.take(i as int)) =~= ref_texts(layers@.take(i - 1)).push(
            ref_texts(layers@)[i - 1],
        ));
        assert(views(written@) =~= ref_texts(layers@.take(i as int)));
    }
    assert(layers@.take(layers@.len() as int) == layers@);
    if layers.len() == 0 {
        String::new()
    } else if layers.len() == 1 {
        let out = cat(": the layer ", written[0].as_str());
        cat(out.as_str(), " names it")
    } else {
        let out = cat(": the layers ", list(&written).as_str());
        cat(out.as_str(), " name it")
    }
}

/// Each profile of a cycle, arrowed: `a → b → a`.
pub open spec fn chain_of(chain: Seq<ProfileName>) -> Seq<char> {
    join_with(name_texts(chain), " → "@)
}

/// Each profile of a cycle, arrowed.
pub fn list_chain(chain: &Vec<ProfileName>) -> (out: String)
    ensures
        out@ == chain_of(chain@),
{
    joined_with(&name_strings(chain), " → ")
}

/// Each layer and its scope: "`file` by base and `keys` by lints".
pub open spec fn scopes_of(layers: Seq<(ProfileName, Scope)>) -> Seq<char> {
    listed(layers.map_values(|l: (ProfileName, Scope)| "`"@ + l.1.word() + "` by "@ + l.0@))
}

/// Each layer and its scope.
pub fn scopes(layers: &Vec<(ProfileName, Scope)>) -> (out: String)
    ensures
        out@ == scopes_of(layers@),
{
    let ghost shown = |l: (ProfileName, Scope)| "`"@ + l.1.word() + "` by "@ + l.0@;
    let mut written: Vec<String> = Vec::new();
    let mut i: usize = 0;
    while i < layers.len()
        invariant
            i <= layers@.len(),
            shown == (|l: (ProfileName, Scope)| "`"@ + l.1.word() + "` by "@ + l.0@),
            views(written@) == layers@.take(i as int).map_values(shown),
        decreases layers@.len() - i,
    {
        let s = cat("`", layers[i].1.as_str());
        let s = cat(s.as_str(), "` by ");
        let s = cat(s.as_str(), layers[i].0.as_str());
        written.push(s);
        i += 1;
        assert(layers@.take(i as int).map_values(shown) =~= layers@.take(i - 1).map_values(shown).push(
            shown(layers@[i - 1]),
        ));
        assert(views(written@) =~= layers@.take(i as int).map_values(shown));
    }
    assert(layers@.take(layers@.len() as int) == layers@);
    list(&written)
}

/// A file that does not parse, with the text to point into.
#[derive(Clone, Debug, PartialEq, Eq)]
pub struct ParseError {
    /// The file, as users know it.
    pub file: String,
    /// Its text; empty when it is not UTF-8.
    pub text: String,
    /// The offending bytes of `text`, from and to, when the parser knows them.
    pub span: Option<(usize, usize)>,
    /// What is wrong.
    pub message: String,
}

impl ParseError {
    /// The error as a message: `file: message`.
    pub fn to_string(&self) -> (r: String)
        ensures
            r@ == self.file@ + ": "@ + self.message@,
    {
        let out = cat(self.file.as_str(), ": ");
        cat(out.as_str(), self.message.as_str())
    }
}

/// Why a profile, or the layers together, do not resolve.
#[derive(Debug)]
pub enum ProfileError {
    /// A source holds no profile at all.
    NoProfiles {
        /// The source, as configured.
        location: String,
    },
    /// A source holds no profile of the name asked for.
    NotInSource {
        /// The source, as users know it.
        location: String,
        /// The name asked for.
        name: ProfileName,
        /// Every profile it holds.
        profiles: Vec<ProfileName>,
    },
    /// Two profiles in one source have one name, which must tell them apart.
    SameNameInSource {
        /// The source, as users know it.
        location: String,
        /// The name.
        name: ProfileName,
        /// The first one's directory in the source.
        first: String,
        /// The second one's.
        second: String,
    },
    /// A manifest says something of itself that does not hold.
    Manifest {
        /// The manifest, as users know it.
        file: String,
        /// What is wrong, and where in it.
        message: String,
    },
    /// The profile's `devset` requirement excludes this build.
    Incompatible {
        /// The profile's name.
        profile: ProfileName,
        /// Its requirement.
        requirement: String,
    },
    /// `[files]` lists a path, or a starter, that `files/` does not hold.
    MissingPayload {
        /// The profile's name.
        profile: ProfileName,
        /// The listed path, as written.
        path: RelPath,
    },
    /// A profile is asked for a feature it does not declare.
    UnknownFeature {
        /// The profile.
        profile: ProfileName,
        /// The feature asked for.
        feature: FeatureName,
        /// Who asked: the target, or a requiring profile.
        by: String,
        /// Every feature it declares.
        known: Vec<FeatureName>,
    },
    /// Two of a profile's paths name one file once their variables are answered.
    SamePath {
        /// The profile.
        profile: ProfileName,
        /// The path both render to.
        path: RelPath,
        /// The first, as written.
        first: RelPath,
        /// The second, as written.
        second: RelPath,
    },
    /// A path, or a glob, in `when.exists` or a scaffold's `unless` cannot be read.
    Pattern {
        /// The profile.
        profile: ProfileName,
        /// The pattern, variables answered.
        pattern: String,
        /// Why not.
        reason: String,
    },
    /// Several layers provide one path, and the target has not chosen.
    Collision {
        /// The path.
        path: RelPath,
        /// Every layer providing it.
        layers: Vec<ProfileName>,
    },
    /// Several layers would start one file the target lacks, and the target has not chosen.
    Starters {
        /// The path.
        path: RelPath,
        /// Every layer that would start it.
        layers: Vec<ProfileName>,
    },
    /// An override's `from` names a layer that does not list the path.
    NotProvided {
        /// The path.
        path: RelPath,
        /// The layer named.
        from: ProfileName,
        /// The layers that do provide it.
        layers: Vec<ProfileName>,
    },
    /// Two paths name one file on a case-insensitive filesystem.
    FoldCollision {
        /// The path met first.
        first: RelPath,
        /// The path that folds onto it.
        second: RelPath,
    },
    /// Requirements lead back to a profile that requires them.
    Cycle {
        /// Each profile on the way round, the repeated one last.
        chain: Vec<ProfileName>,
    },
    /// One profile is required at two refs, which would provide one set of files twice.
    Diverged {
        /// The source met first.
        first: String,
        /// The source met second.
        second: String,
    },
    /// Keys are owned in a file devset does not read as TOML, JSON or YAML.
    NoKeys {
        /// The file.
        path: RelPath,
    },
    /// A block is owned in a file whose comment syntax devset does not know.
    NoComment {
        /// The file.
        path: RelPath,
    },
    /// Two layers own overlapping keys of one file.
    Overlap {
        /// The file.
        path: RelPath,
        /// The key, as people write it.
        key: String,
        /// The layer met first.
        first: ProfileName,
        /// The layer that overlaps it.
        second: ProfileName,
    },
    /// Layers own one file in different scopes: one whole and another in part, or one by keys
    /// and another by a block. A whole `once` file may start one that others own parts of.
    Scopes {
        /// The file.
        path: RelPath,
        /// Each layer, with its scope.
        layers: Vec<(ProfileName, Scope)>,
    },
    /// Two active profiles have one name, which must tell layers apart.
    SameName {
        /// The name.
        name: ProfileName,
        /// The first one's source.
        first: String,
        /// The second one's.
        second: String,
    },
    /// Two layers set one setting differently, and the target does not decide.
    Setting {
        /// The setting, as `table.key`.
        key: String,
        /// The layer that set it first.
        first: ProfileName,
        /// The layer that disagrees.
        second: ProfileName,
    },
}

/// What a [`ProfileError`] says.
pub open spec fn profile_message(e: ProfileError) -> Seq<char> {
    match e {
        ProfileError::NoProfiles { location } => location@ + " holds no profile: no profile.toml in it"@,
        ProfileError::NotInSource { location, name, .. } => location@ + " has no profile named "@
            + name@,
        ProfileError::SameNameInSource { location, name, first, second } => "two profiles in "@
            + location@ + " are named "@ + name@ + ": "@ + first@ + " and "@ + second@,
        ProfileError::Manifest { file, message } => file@ + ": "@ + message@,
        ProfileError::Incompatible { profile, requirement } => "profile "@ + profile@
            + " requires devset "@ + requirement@ + "; this is "@ + VERSION@,
        ProfileError::MissingPayload { profile, path } => "profile "@ + profile@ + " lists "@
            + path@ + ", but files/"@ + path@ + " does not exist"@,
        ProfileError::UnknownFeature { profile, feature, .. } => "profile "@ + profile@
            + " has no feature "@ + feature@,
        ProfileError::SamePath { profile, path, first, second } => "profile "@ + profile@
            + " lists "@ + path@ + " twice: as "@ + first@ + " and as "@ + second@,
        ProfileError::Pattern { profile, pattern, reason } => "profile "@ + profile@ + ": "@
            + debug_str(pattern@) + " is not a path or a glob in the target: "@ + reason@,
        ProfileError::Collision { path, layers } => path@ + " is provided by "@ + listed(
            name_texts(layers@),
        ),
        ProfileError::Starters { path, layers } => path@ + " is started by "@ + listed(
            name_texts(layers@),
        ),
        ProfileError::NotProvided { path, from, .. } => from@ + " does not provide "@ + path@,
        ProfileError::FoldCollision { first, second } => first@ + " and "@ + second@
            + " are the same file on case-insensitive filesystems"@,
        ProfileError::Cycle { chain } => "requirements form a cycle: "@ + chain_of(chain@),
        ProfileError::Diverged { first, second } => first@ + " and "@ + second@
            + " are one source at two refs"@,
        ProfileError::NoKeys { path } => path@
            + " is not read as TOML, JSON or YAML, so a profile cannot own its keys"@,
        ProfileError::NoComment { path } => "devset knows no comment syntax for "@ + path@
            + ", which a block's markers need"@,
        ProfileError::Overlap { path, key, first, second } => first@ + " and "@ + second@
            + " both own "@ + key@ + " in "@ + path@,
        ProfileError::Scopes { path, layers } => path@ + " is owned in different scopes: "@
            + scopes_of(layers@),
        ProfileError::SameName { name, first, second } => "two layers are named "@ + name@ + ": "@
            + first@ + " and "@ + second@,
        ProfileError::Setting { key, first, second } => first@ + " and "@ + second@ + " set "@
            + key@ + " differently"@,
    }
}

/// `a` then `b` then `c`.
fn cat3(a: &str, b: &str, c: &str) -> (out: String)
    ensures
        out@ == a@ + b@ + c@,
{
    let ab = cat(a, b);
    cat(ab.as_str(), c)
}

/// `a` then `b` then `c` then `d`.
fn cat4(a: &str, b: &str, c: &str, d: &str) -> (out: String)
    ensures
        out@ == a@ + b@ + c@ + d@,
{
    let abc = cat3(a, b, c);
    cat(abc.as_str(), d)
}

impl ProfileError {
    /// The error as a message.
    pub fn to_string(&self) -> (r: String)
        ensures
            r@ == profile_message(*self),
    {
        match self {
            ProfileError::NoProfiles { location } => cat(location.as_str(), " holds no profile: no profile.toml in it"),
            ProfileError::NotInSource { location, name, .. } => cat3(location.as_str(), " has no profile named ", name.as_str()),
            ProfileError::SameNameInSource { location, name, first, second } => {
                let a = cat4("two profiles in ", location.as_str(), " are named ", name.as_str());
                cat4(a.as_str(), ": ", first.as_str(), cat(" and ", second.as_str()).as_str())
            },
            ProfileError::Manifest { file, message } => cat3(file.as_str(), ": ", message.as_str()),
            ProfileError::Incompatible { profile, requirement } => {
                let a = cat4("profile ", profile.as_str(), " requires devset ", requirement.as_str());
                cat3(a.as_str(), "; this is ", VERSION)
            },
            ProfileError::MissingPayload { profile, path } => {
                let a = cat4("profile ", profile.as_str(), " lists ", path.as_str());
                cat4(a.as_str(), ", but files/", path.as_str(), " does not exist")
            },
            ProfileError::UnknownFeature { profile, feature, .. } => cat4("profile ", profile.as_str(), " has no feature ", feature.as_str()),
            ProfileError::SamePath { profile, path, first, second } => {
                let a = cat4("profile ", profile.as_str(), " lists ", path.as_str());
                let b = cat4(a.as_str(), " twice: as ", first.as_str(), " and as ");
                cat(b.as_str(), second.as_str())
            },
            ProfileError::Pattern { profile, pattern, reason } => {
                let a = cat4("profile ", profile.as_str(), ": ", quoted(pattern.as_str()).as_str());
                cat3(a.as_str(), " is not a path or a glob in the target: ", reason.as_str())
            },
            ProfileError::Collision { path, layers } => cat3(path.as_str(), " is provided by ", list(&name_strings(layers)).as_str()),
            ProfileError::Starters { path, layers } => cat3(path.as_str(), " is started by ", list(&name_strings(layers)).as_str()),
            ProfileError::NotProvided { path, from, .. } => cat3(from.as_str(), " does not provide ", path.as_str()),
            ProfileError::FoldCollision { first, second } => cat4(first.as_str(), " and ", second.as_str(), " are the same file on case-insensitive filesystems"),
            ProfileError::Cycle { chain } => cat("requirements form a cycle: ", list_chain(chain).as_str()),
            ProfileError::Diverged { first, second } => cat4(first.as_str(), " and ", second.as_str(), " are one source at two refs"),
            ProfileError::NoKeys { path } => cat(path.as_str(), " is not read as TOML, JSON or YAML, so a profile cannot own its keys"),
            ProfileError::NoComment { path } => cat3("devset knows no comment syntax for ", path.as_str(), ", which a block's markers need"),
            ProfileError::Overlap { path, key, first, second } => {
                let a = cat4(first.as_str(), " and ", second.as_str(), " both own ");
                cat4(a.as_str(), key.as_str(), " in ", path.as_str())
            },
            ProfileError::Scopes { path, layers } => cat3(path.as_str(), " is owned in different scopes: ", scopes(layers).as_str()),
            ProfileError::SameName { name, first, second } => {
                let a = cat4("two layers are named ", name.as_str(), ": ", first.as_str());
                cat3(a.as_str(), " and ", second.as_str())
            },
            ProfileError::Setting { key, first, second } => {
                let a = cat4(first.as_str(), " and ", second.as_str(), " set ");
                cat3(a.as_str(), key.as_str(), " differently")
            },
        }
    }
}

/// Why a target cannot be found, read or written.
#[derive(Debug)]
pub enum TargetError {
    /// No directory from here up holds `.devset/config.toml`.
    NotFound {
        /// Where the search began.
        dir: String,
    },
    /// A new target would lie inside another.
    Nested {
        /// The directory asked for.
        dir: String,
        /// The enclosing target's root.
        root: String,
    },
    /// `config.toml` is devset 0.1's: its layers name locations, not profiles.
    OldConfig,
    /// A layer, or a command, names a source `[sources]` does not.
    NoSuchSource {
        /// The name asked for.
        name: SourceName,
        /// Every source's name.
        sources: Vec<SourceName>,
        /// The layers `config.toml` names it for.
        layers: Vec<ProfileRef>,
    },
    /// `[sources]` already names another source so.
    SourceExists {
        /// The name.
        name: SourceName,
        /// The source it names, as configured.
        location: String,
    },
    /// A profile is named without its source, and the target names several, or none.
    WhichSource {
        /// The profile.
        profile: ProfileName,
        /// Every source the target names.
        sources: Vec<SourceName>,
    },
    /// A source holds several profiles, and none was named.
    Ambiguous {
        /// The source, as configured.
        location: String,
        /// Every profile it holds.
        profiles: Vec<ProfileName>,
    },
    /// `config.toml` already lists the layer.
    DuplicateLayer {
        /// The layer's profile.
        layer: ProfileName,
    },
    /// `config.toml` lists one layer twice, which a layer's name must tell apart.
    LayerTwice {
        /// The layer's profile.
        layer: ProfileName,
    },
    /// No layer, and no source, has the name asked for.
    NoSuchLayer {
        /// The name asked for.
        name: String,
        /// Every layer's name, and every source's.
        names: Vec<String>,
    },
    /// A feature asked to be turned off is not one the layer lists.
    NotListed {
        /// The layer's profile.
        layer: ProfileName,
        /// The feature asked for.
        feature: FeatureName,
        /// Every feature the layer lists.
        listed: Vec<FeatureName>,
    },
    /// A scaffold named on the command line is no active profile's.
    NoSuchScaffold {
        /// The name asked for, `profile/group`.
        name: String,
        /// Every active profile's scaffolds.
        scaffolds: Vec<String>,
    },
    /// A path named on the command line is not a file devset manages.
    NotManaged {
        /// The path, as given.
        path: String,
        /// Every managed path.
        managed: Vec<RelPath>,
    },
    /// A layer named where only a configured one will do is one another profile requires.
    Required {
        /// The layer asked for.
        name: ProfileName,
        /// The profile that requires it.
        by: ProfileName,
    },
    /// `config.toml` overrides a path no layer provides.
    StaleOverride {
        /// The overridden path.
        path: RelPath,
        /// Every path the layers provide.
        provided: Vec<RelPath>,
    },
    /// A managed path on disk is a symlink, a directory or a special file.
    NotAFile {
        /// The managed path.
        path: RelPath,
        /// What is there instead: `a symlink`, `a directory` or `a special file`.
        kind: String,
    },
    /// Another devset holds the target's lock.
    Busy,
    /// `state.toml` changed while this devset ran.
    Concurrent,
}

/// What a [`TargetError`] says.
pub open spec fn target_message(e: TargetError) -> Seq<char> {
    match e {
        TargetError::NotFound { dir } => "no devset target in "@ + dir@ + " or any parent"@,
        TargetError::Nested { dir, root } => dir@ + " is inside the devset target at "@ + root@,
        TargetError::OldConfig => ".devset/config.toml is written for devset 0.1: its layers name locations, not profiles"@,
        TargetError::NoSuchSource { name, layers, .. } => "no source is named "@ + name@ + naming_of(layers@),
        TargetError::SourceExists { name, location } => "the source "@ + name@ + " is already "@ + location@,
        TargetError::WhichSource { profile, .. } => "which source is "@ + profile@ + " in? name it as `source/"@
            + profile@ + "`"@,
        TargetError::Ambiguous { location, profiles } => location@ + " holds "@ + decimal(profiles@.len())
            + " profiles; name the one to add"@,
        TargetError::DuplicateLayer { layer } => "the layer "@ + layer@ + " is already applied"@,
        TargetError::LayerTwice { layer } => "`config.toml` lists the layer "@ + layer@ + " twice"@,
        TargetError::NoSuchLayer { name, .. } => "no layer is named "@ + name@,
        TargetError::NotListed { layer, feature, .. } => "the layer "@ + layer@ + " does not list the feature "@ + feature@,
        TargetError::NoSuchScaffold { name, .. } => "no scaffold is named "@ + name@,
        TargetError::NotManaged { path, .. } => path@ + " is not a file devset manages"@,
        TargetError::Required { name, by } => name@ + " is required by "@ + by@ + ", not configured by this target"@,
        TargetError::StaleOverride { path, .. } => ".devset/config.toml overrides "@ + path@ + ", which no layer provides"@,
        TargetError::NotAFile { path, kind } => path@ + " is "@ + kind@ + ", not a regular file"@,
        TargetError::Busy => "another devset is running in this target"@,
        TargetError::Concurrent => ".devset/state.toml changed while devset ran"@,
    }
}

impl TargetError {
    /// The error as a message.
    pub fn to_string(&self) -> (r: String)
        ensures
            r@ == target_message(*self),
    {
        match self {
            TargetError::NotFound { dir } => cat3("no devset target in ", dir.as_str(), " or any parent"),
            TargetError::Nested { dir, root } => cat3(dir.as_str(), " is inside the devset target at ", root.as_str()),
            TargetError::OldConfig => ".devset/config.toml is written for devset 0.1: its layers name locations, not profiles".to_owned(),
            TargetError::NoSuchSource { name, layers, .. } => cat3("no source is named ", name.as_str(), naming(layers).as_str()),
            TargetError::SourceExists { name, location } => cat4("the source ", name.as_str(), " is already ", location.as_str()),
            TargetError::WhichSource { profile, .. } => {
                let a = cat4("which source is ", profile.as_str(), " in? name it as `source/", profile.as_str());
                cat(a.as_str(), "`")
            },
            TargetError::Ambiguous { location, profiles } => cat4(location.as_str(), " holds ", decimal_of(profiles.len()).as_str(), " profiles; name the one to add"),
            TargetError::DuplicateLayer { layer } => cat3("the layer ", layer.as_str(), " is already applied"),
            TargetError::LayerTwice { layer } => cat3("`config.toml` lists the layer ", layer.as_str(), " twice"),
            TargetError::NoSuchLayer { name, .. } => cat("no layer is named ", name.as_str()),
            TargetError::NotListed { layer, feature, .. } => cat4("the layer ", layer.as_str(), " does not list the feature ", feature.as_str()),
            TargetError::NoSuchScaffold { name, .. } => cat("no scaffold is named ", name.as_str()),
            TargetError::NotManaged { path, .. } => cat(path.as_str(), " is not a file devset manages"),
            TargetError::Required { name, by } => cat4(name.as_str(), " is required by ", by.as_str(), ", not configured by this target"),
            TargetError::StaleOverride { path, .. } => cat3(".devset/config.toml overrides ", path.as_str(), ", which no layer provides"),
            TargetError::NotAFile { path, kind } => cat4(path.as_str(), " is ", kind.as_str(), ", not a regular file"),
            TargetError::Busy => "another devset is running in this target".to_owned(),
            TargetError::Concurrent => ".devset/state.toml changed while devset ran".to_owned(),
        }
    }
}

} // verus!
