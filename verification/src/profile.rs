//! What a profile declares, in its `profile.toml`.
//!
//! A profile is a directory in a source: `profile.toml`, and `files/` mirroring the target. Every
//! path `[files]` lists must exist under `files/`; nothing else there is applied. A profile builds
//! on others by name, `[requires]`, and offers features, `[features]`; an entry applies only when
//! its [`When`] holds. A scaffold, `[scaffolds]`, is a group of starter files written once, when
//! none of its sentinels is there.

use vstd::prelude::*;

use crate::format::Format;
use crate::name::{FeatureName, NameError, NameKind, NameRule, ProfileName, ScaffoldName, name_rule};
use crate::part::Scope;
use crate::part::block::Comment;
use crate::path::RelPath;
use crate::settings::MergeSpec;
use crate::source::{Source, SourceSpec, source_message, opt_view, spec_fault};
use crate::text::{cat, chars_of, first_set, slice_of, split_once, starts, string_of, views};
use crate::vars::{VarName, VarSpec};

verus! {

/// How devset manages a file.
#[derive(Clone, Copy, Debug, PartialEq, Eq, Structural)]
pub enum Policy {
    /// The profile is authoritative; local edits are drift.
    Owned,
    /// Local edits are kept, and merged with the profile's.
    Merge,
    /// Written once if absent; the target's from then on.
    Once,
}

impl Policy {
    /// The policy as written: `owned`, `merge` or `once`.
    pub open spec fn word(self) -> Seq<char> {
        match self {
            Policy::Owned => "owned"@,
            Policy::Merge => "merge"@,
            Policy::Once => "once"@,
        }
    }

    /// The policy as written.
    pub fn as_str(self) -> (r: &'static str)
        ensures
            r@ == self.word(),
    {
        match self {
            Policy::Owned => "owned",
            Policy::Merge => "merge",
            Policy::Once => "once",
        }
    }

    /// Whether it is [`Policy::Owned`], the default.
    pub fn is_owned(&self) -> (r: bool)
        ensures
            r == (*self == Policy::Owned),
    {
        *self == Policy::Owned
    }
}

/// What a feature turns on.
#[derive(Debug, PartialEq, Eq)]
pub enum FeatureRef {
    /// Another feature of the profile: `katex`.
    Feature(FeatureName),
    /// An optional requirement, activated: `dep:lychee`.
    Dep(ProfileName),
    /// A feature of a requirement: `github-ci/pages`, which activates it too; or, when `weak`,
    /// `mdbook?/agents`, only if it is active by other means.
    Of {
        /// The requirement.
        profile: ProfileName,
        /// Its feature.
        feature: FeatureName,
        /// Whether it leaves the requirement inactive.
        weak: bool,
    },
}

impl Clone for FeatureRef {
    fn clone(&self) -> (out: Self)
        ensures
            out == *self,
    {
        match self {
            FeatureRef::Feature(f) => FeatureRef::Feature(f.clone()),
            FeatureRef::Dep(p) => FeatureRef::Dep(p.clone()),
            FeatureRef::Of { profile, feature, weak } => FeatureRef::Of {
                profile: profile.clone(),
                feature: feature.clone(),
                weak: *weak,
            },
        }
    }
}

/// `dep:`, which marks an optional requirement.
pub open spec fn dep_prefix() -> Seq<char> {
    seq!['d', 'e', 'p', ':']
}

/// A reference as written: `katex`, `dep:lychee`, `github-ci/pages` or `mdbook?/agents`.
pub open spec fn ref_text(r: FeatureRef) -> Seq<char> {
    match r {
        FeatureRef::Feature(f) => f@,
        FeatureRef::Dep(p) => dep_prefix() + p@,
        FeatureRef::Of { profile, feature, weak } => profile@ + (if weak {
            seq!['?']
        } else {
            Seq::empty()
        }) + seq!['/'] + feature@,
    }
}

/// What is wrong with `s` as a name of `kind`: the kind, the name and the rule it breaks.
pub open spec fn name_fault(s: Seq<char>, kind: NameKind) -> Option<(NameKind, Seq<char>, NameRule)> {
    match name_rule(s, kind == NameKind::Feature) {
        Some(rule) => Some((kind, s, rule)),
        None => None,
    }
}

/// `p` without a final `?`, and whether it had one.
pub open spec fn unmark(p: Seq<char>) -> (Seq<char>, bool) {
    if p.len() > 0 && p.last() == '?' {
        (p.drop_last(), true)
    } else {
        (p, false)
    }
}

/// The first name in `written` that is not one, as a [`FeatureRef`] reads it; `None` when
/// `written` is a reference.
pub open spec fn ref_fault(written: Seq<char>) -> Option<(NameKind, Seq<char>, NameRule)> {
    if starts(written, dep_prefix()) {
        name_fault(written.skip(4), NameKind::Profile)
    } else {
        match split_once(written, '/') {
            None => name_fault(written, NameKind::Feature),
            Some((p, f)) => match name_fault(unmark(p).0, NameKind::Profile) {
                Some(e) => Some(e),
                None => name_fault(f, NameKind::Feature),
            },
        }
    }
}

/// A reference as values: its kind (`0` a feature of the profile itself, `1` a requirement
/// turned on, `2` a requirement's feature), the profile, the feature and whether it is weak.
pub open spec fn ref_view(r: FeatureRef) -> (int, Seq<char>, Seq<char>, bool) {
    match r {
        FeatureRef::Feature(f) => (0, Seq::empty(), f@, false),
        FeatureRef::Dep(p) => (1, p@, Seq::empty(), false),
        FeatureRef::Of { profile, feature, weak } => (2, profile@, feature@, weak),
    }
}

/// How `written` reads as a reference: `dep:` and a profile; or a profile, perhaps marked `?`,
/// a `/` and a feature; or else a feature.
pub open spec fn read_ref(written: Seq<char>) -> (int, Seq<char>, Seq<char>, bool) {
    if starts(written, dep_prefix()) {
        (1, written.skip(4), Seq::empty(), false)
    } else {
        match split_once(written, '/') {
            None => (0, Seq::empty(), written, false),
            Some((p, f)) => (2, unmark(p).0, f, unmark(p).1),
        }
    }
}

/// A name error, as values.
pub open spec fn fault_view(e: NameError) -> (NameKind, Seq<char>, NameRule) {
    (e.kind, e.name@, e.rule)
}

/// The reference `written` is, when it begins `dep:`.
fn parse_dep(written: &str, chars: &Vec<char>) -> (r: Result<FeatureRef, NameError>)
    requires
        chars@ == written@,
        starts(written@, dep_prefix()),
    ensures
        r is Ok <==> ref_fault(written@) is None,
        r matches Ok(x) ==> ref_text(x) == written@ && ref_view(x) == read_ref(written@),
        r matches Err(e) ==> ref_fault(written@) == Some(fault_view(e)),
{
    let rest = string_of(&slice_of(chars, 4, chars.len()));
    assert(rest@ == written@.skip(4));
    match ProfileName::new(rest.as_str()) {
        Ok(p) => {
            assert(written@ =~= dep_prefix() + p@);
            Ok(FeatureRef::Dep(p))
        },
        Err(e) => Err(e),
    }
}

/// The first name that is not one in `head/tail`, read as a requirement's feature.
pub open spec fn of_fault(head: Seq<char>, tail: Seq<char>) -> Option<(NameKind, Seq<char>, NameRule)> {
    match name_fault(unmark(head).0, NameKind::Profile) {
        Some(e) => Some(e),
        None => name_fault(tail, NameKind::Feature),
    }
}

/// The reference `head/tail` is: a requirement's feature, weak when `head` ends in `?`.
fn parse_of(head: &[char], tail: &[char]) -> (r: Result<FeatureRef, NameError>)
    ensures
        r is Ok <==> of_fault(head@, tail@) is None,
        r matches Ok(x) ==> ref_text(x) == head@ + seq!['/'] + tail@ && ref_view(x) == (2int, unmark(head@).0, tail@, unmark(head@).1),
        r matches Err(e) ==> of_fault(head@, tail@) == Some(fault_view(e)),
{
    let weak = head.len() > 0 && head[head.len() - 1] == '?';
    let profile = if weak {
        string_of(&slice_of(head, 0, head.len() - 1))
    } else {
        string_of(head)
    };
    assert(profile@ == unmark(head@).0);
    assert(unmark(head@).1 == weak);
    let feature = string_of(tail);
    let profile = match ProfileName::new(profile.as_str()) {
        Ok(profile) => profile,
        Err(e) => return Err(e),
    };
    let feature = match FeatureName::new(feature.as_str()) {
        Ok(feature) => feature,
        Err(e) => return Err(e),
    };
    proof {
        if weak {
            assert(head@ =~= profile@ + seq!['?']);
        } else {
            assert(head@ =~= profile@ + Seq::empty());
        }
    }
    Ok(FeatureRef::Of { profile, feature, weak })
}

/// How [`ref_fault`] reads `written` that does not begin `dep:`: split at its first `/`, if any.
proof fn lemma_ref_fault(written: Seq<char>)
    requires
        !starts(written, dep_prefix()),
    ensures
        ref_fault(written) == match split_once(written, '/') {
            None => name_fault(written, NameKind::Feature),
            Some((p, f)) => of_fault(p, f),
        },
        read_ref(written) == match split_once(written, '/') {
            None => (0int, Seq::<char>::empty(), written, false),
            Some((p, f)) => (2int, unmark(p).0, f, unmark(p).1),
        },
{
}

impl FeatureRef {
    /// The reference `written` is.
    ///
    /// Fails with the first part that is not a name.
    pub fn parse(written: &str) -> (r: Result<FeatureRef, NameError>)
        ensures
            r is Ok <==> ref_fault(written@) is None,
            r matches Ok(x) ==> ref_text(x) == written@ && ref_view(x) == read_ref(written@),
            r matches Err(e) ==> ref_fault(written@) == Some(fault_view(e)),
    {
        let chars = chars_of(written);
        let dep = chars_of("dep:");
        proof {
            reveal_strlit("dep:");
        }
        assert(dep@ == dep_prefix());
        if crate::text::starts_with(&chars, &dep) {
            return parse_dep(written, &chars);
        }
        proof {
            lemma_ref_fault(written@);
        }
        match crate::text::find_char(&chars, '/') {
            None => match FeatureName::new(written) {
                Ok(f) => Ok(FeatureRef::Feature(f)),
                Err(e) => Err(e),
            },
            Some(at) => {
                let n = chars.len();
                let head = slice_of(&chars, 0, at);
                let tail = slice_of(&chars, at + 1, n);
                proof {
                    assert(split_once(written@, '/') == Some((head@, tail@)));
                    assert(written@ =~= head@ + seq!['/'] + tail@);
                }
                parse_of(&head, &tail)
            },
        }
    }

    /// The reference as written.
    pub fn to_string(&self) -> (r: String)
        ensures
            r@ == ref_text(*self),
    {
        proof {
            reveal_strlit("dep:");
            reveal_strlit("?/");
            reveal_strlit("/");
        }
        match self {
            FeatureRef::Feature(f) => f.as_str().to_owned(),
            FeatureRef::Dep(p) => cat("dep:", p.as_str()),
            FeatureRef::Of { profile, feature, weak } => {
                let head = if *weak {
                    cat(profile.as_str(), "?/")
                } else {
                    cat(profile.as_str(), "/")
                };
                cat(head.as_str(), feature.as_str())
            },
        }
    }
}

/// What is wrong with each name of `list`, as a feature's.
pub open spec fn name_faults(list: Seq<Seq<char>>) -> Seq<Option<(NameKind, Seq<char>, NameRule)>> {
    list.map_values(|w: Seq<char>| name_fault(w, NameKind::Feature))
}

/// What is wrong with each reference of `list`.
pub open spec fn ref_faults(list: Seq<Seq<char>>) -> Seq<Option<(NameKind, Seq<char>, NameRule)>> {
    list.map_values(|w: Seq<char>| ref_fault(w))
}

/// The first name of `list`, as a feature's, that is not one.
pub open spec fn names_fault(list: Seq<Seq<char>>) -> Option<(NameKind, Seq<char>, NameRule)> {
    first_set(name_faults(list))
}

/// The features `list` names, each checked; the first that is not a name's error.
pub fn parse_features(list: &Vec<String>) -> (r: Result<Vec<FeatureName>, NameError>)
    ensures
        match r {
            Ok(v) => names_fault(views(list@)) is None && v@.map_values(|f: FeatureName| f@) == views(list@),
            Err(e) => names_fault(views(list@)) == Some(fault_view(e)),
        },
{
    let ghost all = name_faults(views(list@));
    let mut out: Vec<FeatureName> = Vec::new();
    let mut i: usize = 0;
    while i < list.len()
        invariant
            i <= list@.len(),
            all == name_faults(views(list@)),
            first_set(all.take(i as int)) is None,
            out@.map_values(|f: FeatureName| f@) == views(list@).take(i as int),
        decreases list@.len() - i,
    {
        proof {
            crate::text::lemma_first_set_step(all, i as int);
        }
        match FeatureName::new(list[i].as_str()) {
            Ok(f) => {
                let ghost before = out@.map_values(|f: FeatureName| f@);
                out.push(f);
                assert(out@.map_values(|f: FeatureName| f@) =~= before.push(list@[i as int]@));
                assert(views(list@).take(i + 1) =~= views(list@).take(i as int).push(list@[i as int]@));
            },
            Err(e) => {
                proof {
                    crate::text::lemma_first_set_prefix(all, i + 1);
                }
                return Err(e);
            },
        }
        i += 1;
    }
    assert(all.take(list@.len() as int) == all);
    assert(views(list@).take(list@.len() as int) == views(list@));
    Ok(out)
}

/// The first reference of `list` that is not one.
pub open spec fn refs_fault(list: Seq<Seq<char>>) -> Option<(NameKind, Seq<char>, NameRule)> {
    first_set(ref_faults(list))
}

/// The references `list` writes; the first that is not one's error.
pub fn parse_refs(list: &Vec<String>) -> (r: Result<Vec<FeatureRef>, NameError>)
    ensures
        match r {
            Ok(v) => refs_fault(views(list@)) is None && v@.map_values(|x: FeatureRef| ref_text(x)) == views(list@),
            Err(e) => refs_fault(views(list@)) == Some(fault_view(e)),
        },
{
    let ghost all = ref_faults(views(list@));
    let mut out: Vec<FeatureRef> = Vec::new();
    let mut i: usize = 0;
    while i < list.len()
        invariant
            i <= list@.len(),
            all == ref_faults(views(list@)),
            first_set(all.take(i as int)) is None,
            out@.map_values(|x: FeatureRef| ref_text(x)) == views(list@).take(i as int),
        decreases list@.len() - i,
    {
        proof {
            crate::text::lemma_first_set_step(all, i as int);
        }
        match FeatureRef::parse(list[i].as_str()) {
            Ok(x) => {
                let ghost before = out@.map_values(|x: FeatureRef| ref_text(x));
                out.push(x);
                assert(out@.map_values(|x: FeatureRef| ref_text(x)) =~= before.push(list@[i as int]@));
                assert(views(list@).take(i + 1) =~= views(list@).take(i as int).push(list@[i as int]@));
            },
            Err(e) => {
                proof {
                    crate::text::lemma_first_set_prefix(all, i + 1);
                }
                return Err(e);
            },
        }
        i += 1;
    }
    assert(all.take(list@.len() as int) == all);
    assert(views(list@).take(list@.len() as int) == views(list@));
    Ok(out)
}

/// `default`, the feature list that is on unless turned off.
pub open spec fn default_word() -> Seq<char> {
    seq!['d', 'e', 'f', 'a', 'u', 'l', 't']
}

/// A `[features]` entry as values: its name and the strings it lists.
pub type Entry = (Seq<char>, Seq<Seq<char>>);

/// What is wrong with a `[features]` entry: in `default`, its first list item that is not a
/// feature's name; elsewhere its first item that is not a reference, then its name.
pub open spec fn entry_fault(e: Entry) -> Option<(NameKind, Seq<char>, NameRule)> {
    if e.0 == default_word() {
        names_fault(e.1)
    } else {
        match refs_fault(e.1) {
            Some(x) => Some(x),
            None => name_fault(e.0, NameKind::Feature),
        }
    }
}

/// `table` as values.
pub open spec fn table_view(table: Seq<(String, Vec<String>)>) -> Seq<Entry> {
    table.map_values(|e: (String, Vec<String>)| (e.0@, views(e.1@)))
}

/// The list the last `default` entry of `table` gives; empty when there is none.
pub open spec fn default_list(table: Seq<Entry>) -> Seq<Seq<char>>
    decreases table.len(),
{
    if table.len() == 0 {
        Seq::empty()
    } else if table.last().0 == default_word() {
        table.last().1
    } else {
        default_list(table.drop_last())
    }
}

/// Whether an entry is a feature, not `default`.
pub open spec fn is_feature(e: Entry) -> bool {
    e.0 != default_word()
}

/// The `[features]` table: `default`, and every feature with what it turns on.
#[derive(Debug, Default)]
pub struct Features {
    /// The features on unless a requirer or the target sets `default-features = false`.
    pub default: Vec<FeatureName>,
    /// Every feature, and what turning it on turns on, in the table's order.
    pub declared: Vec<(FeatureName, Vec<FeatureRef>)>,
}

impl View for Features {
    type V = (Seq<Seq<char>>, Seq<Entry>);

    open spec fn view(&self) -> Self::V {
        (
            self.default@.map_values(|f: FeatureName| f@),
            self.declared@.map_values(
                |d: (FeatureName, Vec<FeatureRef>)| (d.0@, d.1@.map_values(|x: FeatureRef| ref_text(x))),
            ),
        )
    }
}

impl Features {
    /// The features `table` declares, each name and reference checked: `default`'s list, and
    /// every other entry in order.
    ///
    /// Fails with the first entry that is wrong, and in it the first name.
    pub fn from_table(table: &Vec<(String, Vec<String>)>) -> (r: Result<Features, NameError>)
        ensures
            match r {
                Ok(f) => first_set(table_view(table@).map_values(|e: Entry| entry_fault(e))) is None
                    && f@ == (default_list(table_view(table@)), table_view(table@).filter(|e: Entry| is_feature(e))),
                Err(e) => first_set(table_view(table@).map_values(|e: Entry| entry_fault(e))) == Some(fault_view(e)),
            },
    {
        let ghost t = table_view(table@);
        let ghost faults = t.map_values(|e: Entry| entry_fault(e));
        let default = chars_of("default");
        proof {
            reveal_strlit("default");
        }
        assert(default@ =~= default_word());
        let mut features = Features { default: Vec::new(), declared: Vec::new() };
        let mut i: usize = 0;
        while i < table.len()
            invariant
                i <= table@.len(),
                t == table_view(table@),
                faults == t.map_values(|e: Entry| entry_fault(e)),
                default@ == default_word(),
                first_set(faults.take(i as int)) is None,
                features@ == (default_list(t.take(i as int)), t.take(i as int).filter(|e: Entry| is_feature(e))),
            decreases table@.len() - i,
        {
            proof {
                crate::text::lemma_first_set_step(faults, i as int);
                assert(t.take(i + 1).drop_last() == t.take(i as int));
                assert(t.take(i + 1).last() == t[i as int]);
                reveal(Seq::filter);
            }
            let (name, list) = (&table[i].0, &table[i].1);
            let ghost e = t[i as int];
            assert(e == (name@, views(list@)));
            if crate::text::same(&chars_of(name.as_str()), &default) {
                match parse_features(list) {
                    Ok(v) => {
                        features.default = v;
                    },
                    Err(err) => {
                        proof {
                            crate::text::lemma_first_set_prefix(faults, i + 1);
                        }
                        return Err(err);
                    },
                }
            } else {
                let refs = match parse_refs(list) {
                    Ok(v) => v,
                    Err(err) => {
                        proof {
                            crate::text::lemma_first_set_prefix(faults, i + 1);
                        }
                        return Err(err);
                    },
                };
                let feature = match FeatureName::new(name.as_str()) {
                    Ok(f) => f,
                    Err(err) => {
                        proof {
                            crate::text::lemma_first_set_prefix(faults, i + 1);
                        }
                        return Err(err);
                    },
                };
                let ghost before = features@.1;
                features.declared.push((feature, refs));
                assert(features@.1 =~= before.push(e));
            }
            i += 1;
        }
        assert(t.take(table@.len() as int) == t);
        assert(faults.take(table@.len() as int) == faults);
        Ok(features)
    }
}

/// Paths or globs in the target: a string, or a list of them.
#[derive(Debug, Default)]
pub struct Patterns(pub Vec<String>);

/// A `[scaffolds.name]` entry: a group of starter files, written together once.
#[derive(Debug, Default)]
pub struct ScaffoldSpec {
    /// Paths or globs of which any, there before the run, means the target has its own: the group
    /// is not written. None writes the group when the profile is first applied.
    pub unless: Patterns,
}

/// When an entry applies: every condition holds.
#[derive(Debug, Default)]
pub struct When {
    /// Features of this profile that are on.
    pub features: Vec<FeatureName>,
    /// Profiles active in the target.
    pub profiles: Vec<ProfileName>,
    /// Variables of this profile, each answered with one of its values; in name order.
    pub vars: Vec<(VarName, Vec<String>)>,
    /// Paths or globs that will exist when the run finishes, whole files or parts; may use
    /// variables.
    pub exists: Vec<String>,
}

/// A profile's `[files."path"]` entry.
#[derive(Debug)]
pub struct FileSpec {
    /// How devset manages the file; `owned` unless set, and `once` in a scaffold.
    pub policy: Option<Policy>,
    /// How a merged result is checked; inferred from the extension unless set.
    pub validate: Option<Format>,
    /// Whether the file is a template, rendered with the answers and the `devset` object.
    pub template: bool,
    /// How much of the file devset owns: all of it, the keys the payload defines, or a block.
    pub scope: Scope,
    /// The comment syntax of a block's markers, where devset does not know the file type's.
    pub comment: Option<Comment>,
    /// Whether devset writes the file executable, mode 755, as a script it ships must be.
    pub executable: bool,
    /// The scaffold group the file belongs to, written with it.
    pub scaffold: Option<ScaffoldName>,
    /// For a part, a file under `files/` the target's file starts from when it is absent.
    pub starter: Option<RelPath>,
    /// When the entry applies; always, unless set.
    pub when: When,
}

/// The policy a file spec means: as written, `once` in a scaffold, or `owned`.
pub open spec fn policy_of(spec: FileSpec) -> Policy {
    match spec.policy {
        Some(p) => p,
        None => if spec.scaffold is Some {
            Policy::Once
        } else {
            Policy::Owned
        },
    }
}

impl FileSpec {
    /// Its policy as written, `once` in a scaffold, or `owned`.
    pub fn policy(&self) -> (p: Policy)
        ensures
            p == policy_of(*self),
    {
        let default = if self.scaffold.is_some() {
            Policy::Once
        } else {
            Policy::Owned
        };
        match self.policy {
            Some(p) => p,
            None => default,
        }
    }
}

/// What `semver` says of the requirement written `requirement` and this build's version,
/// [`VERSION`](crate::errors::VERSION): whether it admits it; `None` when it is no requirement.
pub uninterp spec fn admitted(requirement: Seq<char>) -> Option<bool>;

/// Whether the requirement written `requirement` admits this build: `VersionReq::parse`, then
/// `VersionReq::matches` on [`VERSION`](crate::errors::VERSION) parsed by `Version::parse`.
#[verifier::external_body]
fn admits(requirement: &str) -> (r: Option<bool>)
    ensures
        r == admitted(requirement@),
{
    let req = semver::VersionReq::parse(requirement).ok()?;
    match semver::Version::parse(crate::errors::VERSION) {
        Ok(version) => Some(req.matches(&version)),
        Err(_) => Some(false),
    }
}

/// How `semver` writes the requirement written `requirement` once read; `None` when it is no
/// requirement.
pub uninterp spec fn shown_requirement(requirement: Seq<char>) -> Option<Seq<char>>;

/// The requirement written `requirement`, as `semver` writes it: `VersionReq::parse`, then its
/// `Display`.
#[verifier::external_body]
fn requirement_text(requirement: &str) -> (r: Option<String>)
    ensures
        match r {
            Some(text) => shown_requirement(requirement@) == Some(text@),
            None => shown_requirement(requirement@) is None,
        },
{
    semver::VersionReq::parse(requirement).ok().map(|req| req.to_string())
}

/// The `[profile]` table.
#[derive(Debug)]
pub struct Meta {
    /// Names the profile: in its source, among the layers, in output, and in `from`.
    pub name: ProfileName,
    /// For humans; a git source is pinned by commit.
    pub version: Option<String>,
    /// One line for humans.
    pub description: Option<String>,
    /// The devset versions the profile works with, as a semver requirement, written.
    pub devset: Option<String>,
}

impl Meta {
    /// Whether this build is one the profile works with: it is unless its `devset` requirement
    /// excludes this version, or is no requirement `semver` reads. The error names the requirement
    /// as `semver` writes it, or as written where it cannot read it.
    pub fn compatible(&self) -> (r: Result<(), crate::errors::ProfileError>)
        ensures
            match self.devset {
                None => r is Ok,
                Some(req) => match admitted(req@) {
                    Some(true) => r is Ok,
                    Some(false) => r matches Err(crate::errors::ProfileError::Incompatible { profile, requirement }) && profile@
                        == self.name@ && requirement@ == match shown_requirement(req@) {
                        Some(text) => text,
                        None => req@,
                    },
                    None => r matches Err(crate::errors::ProfileError::Incompatible { profile, requirement }) && profile@
                        == self.name@ && requirement@ == req@,
                },
            },
    {
        match &self.devset {
            None => Ok(()),
            Some(req) => match admits(req.as_str()) {
                Some(admitted) => {
                    let requirement = if admitted {
                        String::new()
                    } else {
                        match requirement_text(req.as_str()) {
                            Some(text) => text,
                            None => req.clone(),
                        }
                    };
                    compatibility(&self.name, admitted, requirement)
                },
                None => compatibility(&self.name, false, req.clone()),
            },
        }
    }
}

/// What the `devset` requirement `requirement` of the profile `name` comes to, given whether it
/// admits this build: nothing where it does; else the error that names both.
pub fn compatibility(name: &ProfileName, admitted: bool, requirement: String) -> (r: Result<(), crate::errors::ProfileError>)
    ensures
        admitted ==> r is Ok,
        !admitted ==> (r matches Err(crate::errors::ProfileError::Incompatible { profile, requirement: req }) && profile@ == name@
            && req == requirement),
{
    if admitted {
        Ok(())
    } else {
        Err(crate::errors::ProfileError::Incompatible { profile: name.clone(), requirement })
    }
}

/// A profile another builds on, keyed by its name in `[requires]`.
///
/// In the requirer's own source unless it names another by `git`.
#[derive(Debug)]
pub struct Requirement {
    /// Its features to turn on.
    pub features: Vec<FeatureName>,
    /// Whether its default features are on; unless a requirer or the target turns them on.
    pub default_features: bool,
    /// Whether it applies only when a feature activates it, with `dep:` or `name/feature`.
    pub optional: bool,
    /// Another source it comes from; `None` for the requirer's own.
    pub source: Option<Source>,
}

/// A requirement as written.
#[derive(Debug)]
pub struct RequirementSpec {
    /// Its features to turn on.
    pub features: Vec<FeatureName>,
    /// Whether its default features are on; `true` unless set.
    pub default_features: bool,
    /// Whether it applies only when a feature activates it.
    pub optional: bool,
    /// The repository of another source.
    pub git: Option<String>,
    /// Its tag; only with `git`.
    pub tag: Option<String>,
    /// Its branch; only with `git`.
    pub branch: Option<String>,
    /// Its commit; only with `git`.
    pub rev: Option<String>,
    /// The directory in the repository its profiles are in; only with `git`.
    pub path: Option<String>,
}

/// Why a requirement names a place without `git`.
pub open spec fn located_message() -> Seq<char> {
    "`tag`, `branch`, `rev` and `path` name another source, with `git`; a profile in this one is required by name alone"@
}

impl Requirement {
    /// The requirement `spec` writes: in another source when it names `git`, else by name alone.
    ///
    /// Fails when it places the profile without `git`, or the source it names is not one.
    pub fn from_spec(spec: RequirementSpec) -> (r: Result<Requirement, String>)
        ensures
            match r {
                Ok(req) => req.features == spec.features && req.default_features == spec.default_features
                    && req.optional == spec.optional && match req.source {
                    None => spec.git is None && spec.tag is None && spec.branch is None && spec.rev is None
                        && spec.path is None,
                    Some(_) => spec.git is Some && spec_fault(opt_view(spec.git), spec.tag is Some, spec.branch is Some, opt_view(spec.rev), opt_view(spec.path)) is None,
                },
                Err(message) => if spec.git is None {
                    message@ == located_message() && (spec.tag is Some || spec.branch is Some || spec.rev is Some
                        || spec.path is Some)
                } else {
                    spec_fault(opt_view(spec.git), spec.tag is Some, spec.branch is Some, opt_view(spec.rev), opt_view(spec.path)) is Some
                        && exists|e: crate::source::SourceError| message@ == source_message(e)
                            && spec_fault(opt_view(spec.git), spec.tag is Some, spec.branch is Some, opt_view(spec.rev), opt_view(spec.path)) == Some(crate::source::fault_of(e))
                },
            },
    {
        let RequirementSpec { features, default_features, optional, git, tag, branch, rev, path } = spec;
        let located = tag.is_some() || branch.is_some() || rev.is_some() || path.is_some();
        let source = match git {
            Some(git) => {
                let spec = SourceSpec { git: Some(git), tag, branch, rev, path };
                match Source::from_spec(spec) {
                    Ok(source) => Some(source),
                    Err(e) => return Err(e.to_string()),
                }
            },
            None => if located {
                return Err("`tag`, `branch`, `rev` and `path` name another source, with `git`; a profile in this one is required by name alone".to_owned());
            } else {
                None
            },
        };
        Ok(Requirement { features, default_features, optional, source })
    }
}

/// `profile.toml`.
#[derive(Debug)]
pub struct Manifest {
    /// Identity.
    pub profile: Meta,
    /// Profiles this one builds on, by name, in name order: each a layer before it.
    pub requires: Vec<(ProfileName, Requirement)>,
    /// What a target or a requirer may turn on.
    pub features: Features,
    /// Variables templates and paths use, in name order; the target answers them.
    pub vars: Vec<(VarName, VarSpec)>,
    /// Merge defaults.
    pub merge: MergeSpec,
    /// Groups of starter files, in name order, each written once, when none of its sentinels
    /// is there.
    pub scaffolds: Vec<(ScaffoldName, ScaffoldSpec)>,
    /// Managed files, in path order, by path in the target, as found under `files/`; a path may
    /// use variables.
    pub files: Vec<(RelPath, FileSpec)>,
}

/// Whether `m` declares the feature `f`.
pub open spec fn declares(m: Manifest, f: Seq<char>) -> bool {
    exists|i: int| 0 <= i < m.features.declared@.len() && (#[trigger] m.features.declared@[i]).0@ == f
}

/// Whether `m` requires the profile `p`, and if so whether optionally: its first entry's.
pub open spec fn optional_of(m: Manifest, p: Seq<char>) -> Option<bool> {
    first_set(m.requires@.map_values(|r: (ProfileName, Requirement)| if r.0@ == p {
        Some(r.1.optional)
    } else {
        None
    }))
}

/// Whether `m` declares the variable `v`.
pub open spec fn declares_var(m: Manifest, v: Seq<char>) -> bool {
    exists|i: int| 0 <= i < m.vars@.len() && (#[trigger] m.vars@[i]).0@ == v
}

/// Whether `m` declares the scaffold group `g`.
pub open spec fn declares_scaffold(m: Manifest, g: Seq<char>) -> bool {
    exists|i: int| 0 <= i < m.scaffolds@.len() && (#[trigger] m.scaffolds@[i]).0@ == g
}

/// `` `x` ``.
pub open spec fn ticked(x: Seq<char>) -> Seq<char> {
    "`"@ + x + "`"@
}

/// Why `r`, in a feature's list, names nothing `m` declares.
pub open spec fn ref_why(m: Manifest, r: FeatureRef) -> Option<Seq<char>> {
    match r {
        FeatureRef::Feature(f) => if declares(m, f@) {
            None
        } else {
            Some("[features] lacks "@ + ticked(f@))
        },
        FeatureRef::Dep(p) => match optional_of(m, p@) {
            None => Some("[requires] lacks "@ + ticked(p@)),
            Some(false) => Some(ticked(p@) + " is not an optional requirement"@),
            Some(true) => None,
        },
        FeatureRef::Of { profile, .. } => if optional_of(m, profile@) is Some {
            None
        } else {
            Some("[requires] lacks "@ + ticked(profile@))
        },
    }
}

/// The first of `when`'s features that `m` does not declare.
pub open spec fn unknown_feature(m: Manifest, gate: When) -> Option<Seq<char>> {
    first_set(gate.features@.map_values(|f: FeatureName| if declares(m, f@) {
        None
    } else {
        Some(f@)
    }))
}

/// The first of `when`'s variables that `m` does not declare.
pub open spec fn unknown_var(m: Manifest, gate: When) -> Option<Seq<char>> {
    first_set(gate.vars@.map_values(|v: (VarName, Vec<String>)| if declares_var(m, v.0@) {
        None
    } else {
        Some(v.0@)
    }))
}

/// Why a part's starter is out of place: a whole file is its own.
pub open spec fn starter_why(spec: FileSpec) -> Option<Seq<char>> {
    if spec.starter is Some && spec.scope == Scope::File {
        Some("`starter` is for a part: a whole file is its own"@)
    } else {
        None
    }
}

/// Why `spec`, an entry of `m`, cannot be applied as written.
pub open spec fn entry_why(m: Manifest, spec: FileSpec) -> Option<Seq<char>> {
    match unknown_feature(m, spec.when) {
        Some(f) => Some("`when` names feature "@ + ticked(f) + ", which [features] lacks"@),
        None => match unknown_var(m, spec.when) {
            Some(v) => Some("`when` names variable "@ + ticked(v) + ", which [vars] lacks"@),
            None => match spec.scaffold {
                Some(g) => if !declares_scaffold(m, g@) {
                    Some("scaffold "@ + ticked(g@) + " is not in [scaffolds]"@)
                } else if spec.scope != Scope::File || (spec.policy is Some && spec.policy->0
                    != Policy::Once) {
                    Some("a scaffold's file is a whole file, `once`"@)
                } else {
                    starter_why(spec)
                },
                None => starter_why(spec),
            },
        },
    }
}

/// What is wrong with each feature `default` lists.
pub open spec fn default_whys(m: Manifest) -> Seq<Option<Seq<char>>> {
    m.features.default@.map_values(|f: FeatureName| if declares(m, f@) {
        None
    } else {
        Some("`default` lists "@ + ticked(f@) + ", which [features] lacks"@)
    })
}

/// What is wrong with each reference the feature `f` lists.
pub open spec fn feature_whys(m: Manifest, f: Seq<char>, refs: Seq<FeatureRef>) -> Seq<Option<Seq<char>>> {
    refs.map_values(|r: FeatureRef| match ref_why(m, r) {
        Some(why) => Some("feature "@ + ticked(f) + " turns on "@ + ticked(ref_text(r)) + ", but "@ + why),
        None => None,
    })
}

/// What is wrong with each feature's list.
pub open spec fn declared_whys(m: Manifest) -> Seq<Option<Seq<char>>> {
    m.features.declared@.map_values(|d: (FeatureName, Vec<FeatureRef>)| first_set(feature_whys(m, d.0@, d.1@)))
}

/// What is wrong with each `[files]` entry.
pub open spec fn file_whys(m: Manifest) -> Seq<Option<Seq<char>>> {
    m.files@.map_values(|e: (RelPath, FileSpec)| match entry_why(m, e.1) {
        Some(why) => Some("[files.\""@ + e.0@ + "\"]: "@ + why),
        None => None,
    })
}

/// The first thing `m` says of itself that does not hold: a `default` feature it lacks, then a
/// reference in a feature's list, then an entry it cannot apply.
pub open spec fn manifest_why(m: Manifest) -> Option<Seq<char>> {
    match first_set(default_whys(m)) {
        Some(why) => Some(why),
        None => match first_set(declared_whys(m)) {
            Some(why) => Some(why),
            None => first_set(file_whys(m)),
        },
    }
}

/// `a` then `b` then `c`.
fn cat3(a: &str, b: &str, c: &str) -> (out: String)
    ensures
        out@ == a@ + b@ + c@,
{
    let ab = cat(a, b);
    cat(ab.as_str(), c)
}

/// `` `x` ``.
fn tick(x: &str) -> (out: String)
    ensures
        out@ == ticked(x@),
{
    cat3("`", x, "`")
}

impl Manifest {
    /// Whether it declares the feature `f`.
    pub fn declares(&self, f: &FeatureName) -> (r: bool)
        ensures
            r == declares(*self, f@),
    {
        let mut i: usize = 0;
        while i < self.features.declared.len()
            invariant
                i <= self.features.declared@.len(),
                forall|k: int| 0 <= k < i ==> (#[trigger] self.features.declared@[k]).0@ != f@,
            decreases self.features.declared@.len() - i,
        {
            if self.features.declared[i].0.same(f) {
                return true;
            }
            i += 1;
        }
        false
    }

    /// Whether it requires `p`, and if so whether optionally.
    pub fn optional(&self, p: &ProfileName) -> (r: Option<bool>)
        ensures
            r == optional_of(*self, p@),
    {
        let ghost all = self.requires@.map_values(|r: (ProfileName, Requirement)| if r.0@ == p@ {
            Some(r.1.optional)
        } else {
            None
        });
        let mut i: usize = 0;
        while i < self.requires.len()
            invariant
                i <= self.requires@.len(),
                all == self.requires@.map_values(|r: (ProfileName, Requirement)| if r.0@ == p@ {
                    Some(r.1.optional)
                } else {
                    None
                }),
                first_set(all.take(i as int)) is None,
            decreases self.requires@.len() - i,
        {
            proof {
                crate::text::lemma_first_set_step(all, i as int);
            }
            if self.requires[i].0.same(p) {
                proof {
                    crate::text::lemma_first_set_prefix(all, i + 1);
                }
                return Some(self.requires[i].1.optional);
            }
            i += 1;
        }
        assert(all.take(self.requires@.len() as int) == all);
        None
    }

    /// Whether it declares the variable `v`.
    pub fn declares_var(&self, v: &VarName) -> (r: bool)
        ensures
            r == declares_var(*self, v@),
    {
        let mut i: usize = 0;
        while i < self.vars.len()
            invariant
                i <= self.vars@.len(),
                forall|k: int| 0 <= k < i ==> (#[trigger] self.vars@[k]).0@ != v@,
            decreases self.vars@.len() - i,
        {
            if self.vars[i].0.same(v) {
                return true;
            }
            i += 1;
        }
        false
    }

    /// Whether it declares the scaffold group `g`.
    pub fn declares_scaffold(&self, g: &ScaffoldName) -> (r: bool)
        ensures
            r == declares_scaffold(*self, g@),
    {
        let mut i: usize = 0;
        while i < self.scaffolds.len()
            invariant
                i <= self.scaffolds@.len(),
                forall|k: int| 0 <= k < i ==> (#[trigger] self.scaffolds@[k]).0@ != g@,
            decreases self.scaffolds@.len() - i,
        {
            if self.scaffolds[i].0.same(g) {
                return true;
            }
            i += 1;
        }
        false
    }

    /// Why `r`, in a feature's list, names nothing this manifest declares.
    pub fn ref_why(&self, r: &FeatureRef) -> (why: Option<String>)
        ensures
            match why {
                Some(w) => ref_why(*self, *r) == Some(w@),
                None => ref_why(*self, *r) is None,
            },
    {
        match r {
            FeatureRef::Feature(f) => if self.declares(f) {
                None
            } else {
                Some(cat("[features] lacks ", tick(f.as_str()).as_str()))
            },
            FeatureRef::Dep(p) => match self.optional(p) {
                None => Some(cat("[requires] lacks ", tick(p.as_str()).as_str())),
                Some(false) => Some(cat(tick(p.as_str()).as_str(), " is not an optional requirement")),
                Some(true) => None,
            },
            FeatureRef::Of { profile, .. } => if self.optional(profile).is_some() {
                None
            } else {
                Some(cat("[requires] lacks ", tick(profile.as_str()).as_str()))
            },
        }
    }

    /// The first of `when`'s features this manifest does not declare.
    fn unknown_feature(&self, gate: &When) -> (r: Option<String>)
        ensures
            match r {
                Some(f) => unknown_feature(*self, *gate) == Some(f@),
                None => unknown_feature(*self, *gate) is None,
            },
    {
        let ghost all = gate.features@.map_values(|f: FeatureName| if declares(*self, f@) {
            None
        } else {
            Some(f@)
        });
        let mut i: usize = 0;
        while i < gate.features.len()
            invariant
                i <= gate.features@.len(),
                all == gate.features@.map_values(|f: FeatureName| if declares(*self, f@) {
                    None
                } else {
                    Some(f@)
                }),
                first_set(all.take(i as int)) is None,
            decreases gate.features@.len() - i,
        {
            proof {
                crate::text::lemma_first_set_step(all, i as int);
            }
            if !self.declares(&gate.features[i]) {
                proof {
                    crate::text::lemma_first_set_prefix(all, i + 1);
                }
                return Some(gate.features[i].as_str().to_owned());
            }
            i += 1;
        }
        assert(all.take(gate.features@.len() as int) == all);
        None
    }

    /// The first of `when`'s variables this manifest does not declare.
    fn unknown_var(&self, gate: &When) -> (r: Option<String>)
        ensures
            match r {
                Some(v) => unknown_var(*self, *gate) == Some(v@),
                None => unknown_var(*self, *gate) is None,
            },
    {
        let ghost all = gate.vars@.map_values(|v: (VarName, Vec<String>)| if declares_var(*self, v.0@) {
            None
        } else {
            Some(v.0@)
        });
        let mut i: usize = 0;
        while i < gate.vars.len()
            invariant
                i <= gate.vars@.len(),
                all == gate.vars@.map_values(|v: (VarName, Vec<String>)| if declares_var(*self, v.0@) {
                    None
                } else {
                    Some(v.0@)
                }),
                first_set(all.take(i as int)) is None,
            decreases gate.vars@.len() - i,
        {
            proof {
                crate::text::lemma_first_set_step(all, i as int);
            }
            if !self.declares_var(&gate.vars[i].0) {
                proof {
                    crate::text::lemma_first_set_prefix(all, i + 1);
                }
                return Some(gate.vars[i].0.as_str().to_owned());
            }
            i += 1;
        }
        assert(all.take(gate.vars@.len() as int) == all);
        None
    }

    /// Why `spec` cannot be applied as written.
    pub fn entry_why(&self, spec: &FileSpec) -> (why: Option<String>)
        ensures
            match why {
                Some(w) => entry_why(*self, *spec) == Some(w@),
                None => entry_why(*self, *spec) is None,
            },
    {
        if let Some(f) = self.unknown_feature(&spec.when) {
            return Some(cat3("`when` names feature ", tick(f.as_str()).as_str(), ", which [features] lacks"));
        }
        if let Some(v) = self.unknown_var(&spec.when) {
            return Some(cat3("`when` names variable ", tick(v.as_str()).as_str(), ", which [vars] lacks"));
        }
        if let Some(group) = &spec.scaffold {
            if !self.declares_scaffold(group) {
                return Some(cat3("scaffold ", tick(group.as_str()).as_str(), " is not in [scaffolds]"));
            }
            let not_once = match spec.policy {
                Some(p) => p != Policy::Once,
                None => false,
            };
            if spec.scope != Scope::File || not_once {
                return Some("a scaffold's file is a whole file, `once`".to_owned());
            }
        }
        if spec.starter.is_some() && spec.scope == Scope::File {
            return Some("`starter` is for a part: a whole file is its own".to_owned());
        }
        None
    }
}

impl Manifest {
    /// Why the feature `f`'s list is wrong: its first reference to something undeclared.
    fn feature_why(&self, f: &FeatureName, refs: &Vec<FeatureRef>) -> (why: Option<String>)
        ensures
            match why {
                Some(w) => first_set(feature_whys(*self, f@, refs@)) == Some(w@),
                None => first_set(feature_whys(*self, f@, refs@)) is None,
            },
    {
        let ghost all = feature_whys(*self, f@, refs@);
        let mut j: usize = 0;
        while j < refs.len()
            invariant
                j <= refs@.len(),
                all == feature_whys(*self, f@, refs@),
                first_set(all.take(j as int)) is None,
            decreases refs@.len() - j,
        {
            proof {
                crate::text::lemma_first_set_step(all, j as int);
            }
            if let Some(why) = self.ref_why(&refs[j]) {
                proof {
                    crate::text::lemma_first_set_prefix(all, j + 1);
                }
                let head = cat3("feature ", tick(f.as_str()).as_str(), " turns on ");
                let head = cat3(head.as_str(), tick(refs[j].to_string().as_str()).as_str(), ", but ");
                return Some(cat(head.as_str(), why.as_str()));
            }
            j += 1;
        }
        assert(all.take(refs@.len() as int) == all);
        None
    }

    /// The first thing the manifest says of itself that does not hold.
    pub fn why(&self) -> (why: Option<String>)
        ensures
            match why {
                Some(w) => manifest_why(*self) == Some(w@),
                None => manifest_why(*self) is None,
            },
    {
        let ghost defaults = default_whys(*self);
        let mut i: usize = 0;
        while i < self.features.default.len()
            invariant
                i <= self.features.default@.len(),
                defaults == default_whys(*self),
                first_set(defaults.take(i as int)) is None,
            decreases self.features.default@.len() - i,
        {
            proof {
                crate::text::lemma_first_set_step(defaults, i as int);
            }
            let f = &self.features.default[i];
            if !self.declares(f) {
                proof {
                    crate::text::lemma_first_set_prefix(defaults, i + 1);
                }
                return Some(cat3("`default` lists ", tick(f.as_str()).as_str(), ", which [features] lacks"));
            }
            i += 1;
        }
        assert(defaults.take(self.features.default@.len() as int) == defaults);
        let ghost declared = declared_whys(*self);
        let mut i: usize = 0;
        while i < self.features.declared.len()
            invariant
                i <= self.features.declared@.len(),
                declared == declared_whys(*self),
                defaults == default_whys(*self),
                first_set(defaults) is None,
                first_set(declared.take(i as int)) is None,
            decreases self.features.declared@.len() - i,
        {
            proof {
                crate::text::lemma_first_set_step(declared, i as int);
            }
            let (f, refs) = (&self.features.declared[i].0, &self.features.declared[i].1);
            assert(declared[i as int] == first_set(feature_whys(*self, f@, refs@)));
            if let Some(why) = self.feature_why(f, refs) {
                proof {
                    crate::text::lemma_first_set_prefix(declared, i + 1);
                }
                return Some(why);
            }
            i += 1;
        }
        assert(declared.take(self.features.declared@.len() as int) == declared);
        let ghost files = file_whys(*self);
        let mut i: usize = 0;
        while i < self.files.len()
            invariant
                i <= self.files@.len(),
                files == file_whys(*self),
                defaults == default_whys(*self),
                declared == declared_whys(*self),
                first_set(defaults) is None,
                first_set(declared) is None,
                first_set(files.take(i as int)) is None,
            decreases self.files@.len() - i,
        {
            proof {
                crate::text::lemma_first_set_step(files, i as int);
            }
            assert(files[i as int] == match entry_why(*self, self.files@[i as int].1) {
                Some(why) => Some("[files.\""@ + self.files@[i as int].0@ + "\"]: "@ + why),
                None => None,
            });
            if let Some(why) = self.entry_why(&self.files[i].1) {
                proof {
                    crate::text::lemma_first_set_prefix(files, i + 1);
                }
                let head = cat3("[files.\"", self.files[i].0.as_str(), "\"]: ");
                return Some(cat(head.as_str(), why.as_str()));
            }
            i += 1;
        }
        assert(files.take(self.files@.len() as int) == files);
        None
    }

    /// Checks what the manifest says of itself: every feature, requirement, scaffold and variable
    /// it names is one it declares, and every entry is one devset can apply.
    ///
    /// Fails with [`ProfileError::Manifest`](crate::errors::ProfileError::Manifest), naming
    /// `file` and the first thing wrong.
    pub fn check(&self, file: &str) -> (r: Result<(), crate::errors::ProfileError>)
        ensures
            r is Ok <==> manifest_why(*self) is None,
            r matches Err(e) ==> (e matches crate::errors::ProfileError::Manifest { file: f, message }
                && f@ == file@ && manifest_why(*self) == Some(message@)),
    {
        match self.why() {
            None => Ok(()),
            Some(message) => Err(crate::errors::ProfileError::Manifest { file: file.to_owned(), message }),
        }
    }

    /// Every payload file the manifest names, as written, each once: each entry's, then each
    /// starter.
    pub fn payload_paths(&self) -> (out: Vec<RelPath>)
        ensures
            out@.map_values(|r: RelPath| r@) == dedup(
                self.files@.map_values(|e: (RelPath, FileSpec)| e.0@) + starters_of(self.files@),
            ),
    {
        let mut cands: Vec<RelPath> = Vec::new();
        let mut i: usize = 0;
        while i < self.files.len()
            invariant
                i <= self.files@.len(),
                cands@.map_values(|r: RelPath| r@) == self.files@.take(i as int).map_values(|e: (RelPath, FileSpec)| e.0@),
            decreases self.files@.len() - i,
        {
            let ghost before = cands@.map_values(|r: RelPath| r@);
            cands.push(self.files[i].0.clone());
            i += 1;
            assert(self.files@.take(i as int) == self.files@.take(i - 1).push(self.files@[i - 1]));
            assert(cands@.map_values(|r: RelPath| r@) =~= before.push(self.files@[i - 1].0@));
        }
        assert(self.files@.take(self.files@.len() as int) == self.files@);
        let ghost keys = cands@.map_values(|r: RelPath| r@);
        let mut i: usize = 0;
        while i < self.files.len()
            invariant
                i <= self.files@.len(),
                keys == self.files@.map_values(|e: (RelPath, FileSpec)| e.0@),
                cands@.map_values(|r: RelPath| r@) == keys + starters_of(self.files@.take(i as int)),
            decreases self.files@.len() - i,
        {
            assert(self.files@.take(i + 1).drop_last() == self.files@.take(i as int));
            if let Some(s) = &self.files[i].1.starter {
                let ghost before = cands@.map_values(|r: RelPath| r@);
                cands.push(s.clone());
                assert(cands@.map_values(|r: RelPath| r@) =~= before.push(s@));
                assert(keys + starters_of(self.files@.take(i + 1)) =~= (keys + starters_of(self.files@.take(i as int))).push(s@));
            }
            i += 1;
        }
        assert(self.files@.take(self.files@.len() as int) == self.files@);
        let ghost all = cands@.map_values(|r: RelPath| r@);
        let mut out: Vec<RelPath> = Vec::new();
        let mut i: usize = 0;
        while i < cands.len()
            invariant
                i <= cands@.len(),
                all == cands@.map_values(|r: RelPath| r@),
                out@.map_values(|r: RelPath| r@) == dedup(all.take(i as int)),
            decreases cands@.len() - i,
        {
            let ghost d = out@.map_values(|r: RelPath| r@);
            let mut seen = false;
            let mut j: usize = 0;
            while j < out.len()
                invariant
                    j <= out@.len(),
                    i < cands@.len(),
                    d == out@.map_values(|r: RelPath| r@),
                    seen <==> exists|k: int| 0 <= k < j && d[k] == cands@[i as int]@,
                decreases out@.len() - j,
            {
                assert(d[j as int] == out@[j as int]@);
                if out[j].same(&cands[i]) {
                    seen = true;
                }
                j += 1;
            }
            assert(all.take(i + 1).drop_last() == all.take(i as int));
            assert(all.take(i + 1).last() == cands@[i as int]@);
            if !seen {
                out.push(cands[i].clone());
                assert(out@.map_values(|r: RelPath| r@) =~= d.push(cands@[i as int]@));
            } else {
                proof {
                    let k = choose|k: int| 0 <= k < out@.len() && d[k] == cands@[i as int]@;
                    assert(d.contains(cands@[i as int]@));
                }
            }
            i += 1;
        }
        assert(all.take(cands@.len() as int) == all);
        out
    }
}

/// The starters of `files`, in order.
pub open spec fn starters_of(files: Seq<(RelPath, FileSpec)>) -> Seq<Seq<char>>
    decreases files.len(),
{
    if files.len() == 0 {
        Seq::empty()
    } else {
        let rest = starters_of(files.drop_last());
        match files.last().1.starter {
            Some(s) => rest.push(s@),
            None => rest,
        }
    }
}

/// `s` with each value kept where it first occurs.
pub open spec fn dedup(s: Seq<Seq<char>>) -> Seq<Seq<char>>
    decreases s.len(),
{
    if s.len() == 0 {
        Seq::empty()
    } else {
        let d = dedup(s.drop_last());
        if d.contains(s.last()) {
            d
        } else {
            d.push(s.last())
        }
    }
}

} // verus!
