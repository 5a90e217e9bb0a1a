//! The names profiles, sources, features and scaffolds go by, and `source/profile`.
//!
//! Every name is ASCII letters, digits, `-` and `_`, beginning with a letter or a digit, so it
//! reads the same in TOML keys, on the command line and in paths.

use vstd::prelude::*;

use crate::text::{cat, chars_of, debug_str, find_char, has, is_alnum, quoted, slice_of, split_once, string_of};

verus! {

/// What a name names, as messages call it.
#[derive(Clone, Copy, Debug, PartialEq, Eq, Structural)]
pub enum NameKind {
    /// A profile's name.
    Profile,
    /// A source's name.
    Source,
    /// A feature's name.
    Feature,
    /// A scaffold group's name, or a scaffold written `profile/group`.
    Scaffold,
    /// A layer, written `source/profile`.
    Layer,
}

impl NameKind {
    /// The kind, as messages call it.
    pub open spec fn word(self) -> Seq<char> {
        match self {
            NameKind::Profile => "profile"@,
            NameKind::Source => "source"@,
            NameKind::Feature => "feature"@,
            NameKind::Scaffold => "scaffold"@,
            NameKind::Layer => "layer"@,
        }
    }

    /// The kind, as messages call it.
    pub fn as_str(self) -> (r: &'static str)
        ensures
            r@ == self.word(),
    {
        match self {
            NameKind::Profile => "profile",
            NameKind::Source => "source",
            NameKind::Feature => "feature",
            NameKind::Scaffold => "scaffold",
            NameKind::Layer => "layer",
        }
    }
}

/// The rule a name breaks.
#[derive(Clone, Copy, Debug, PartialEq, Eq, Structural)]
pub enum NameRule {
    /// It does not begin with a letter or a digit.
    Begin,
    /// It holds something other than letters, digits, `-` and `_`.
    Chars,
    /// A feature named `default`, which names the list of features on by default.
    Default,
    /// A layer not written `source/profile`.
    Layer,
    /// A scaffold not written `profile/group`.
    Group,
}

impl NameRule {
    /// The rule, as messages state it.
    pub open spec fn text(self) -> Seq<char> {
        match self {
            NameRule::Begin => "begin with a letter or a digit"@,
            NameRule::Chars => "use letters, digits, `-` and `_`"@,
            NameRule::Default => "`default` names the list of features on by default"@,
            NameRule::Layer => "write `source/profile`"@,
            NameRule::Group => "write `profile/group`"@,
        }
    }

    /// The rule, as messages state it.
    pub fn as_str(self) -> (r: &'static str)
        ensures
            r@ == self.text(),
    {
        match self {
            NameRule::Begin => "begin with a letter or a digit",
            NameRule::Chars => "use letters, digits, `-` and `_`",
            NameRule::Default => "`default` names the list of features on by default",
            NameRule::Layer => "write `source/profile`",
            NameRule::Group => "write `profile/group`",
        }
    }
}

/// Why a name is not one.
#[derive(Clone, Debug, PartialEq, Eq)]
pub struct NameError {
    /// What it would have named.
    pub kind: NameKind,
    /// The name.
    pub name: String,
    /// The rule it breaks.
    pub rule: NameRule,
}

impl NameError {
    /// The error as a message: `invalid profile name "a b": use letters, digits, `-` and `_``.
    pub fn message(&self) -> (r: String)
        ensures
            r@ == "invalid "@ + self.kind.word() + " name "@ + debug_str(self.name@) + ": "@
                + self.rule.text(),
    {
        let out = cat("invalid ", self.kind.as_str());
        let out = cat(out.as_str(), " name ");
        let out = cat(out.as_str(), quoted(self.name.as_str()).as_str());
        let out = cat(out.as_str(), ": ");
        cat(out.as_str(), self.rule.as_str())
    }
}

/// A name's character: a letter, a digit, `-` or `_`.
pub open spec fn name_char(c: char) -> bool {
    is_alnum(c) || c == '-' || c == '_'
}

/// The first rule `name` breaks as a name; `feature` for a feature's, which may not be `default`.
pub open spec fn name_rule(name: Seq<char>, feature: bool) -> Option<NameRule> {
    if name.len() == 0 || !is_alnum(name[0]) {
        Some(NameRule::Begin)
    } else if exists|i: int| 1 <= i < name.len() && !name_char(name[i]) {
        Some(NameRule::Chars)
    } else if feature && name == "default"@ {
        Some(NameRule::Default)
    } else {
        None
    }
}

/// Whether `c` is an ASCII letter or digit.
pub fn alnum(c: char) -> (r: bool)
    ensures
        r == is_alnum(c),
{
    ('a' <= c && c <= 'z') || ('A' <= c && c <= 'Z') || ('0' <= c && c <= '9')
}

/// The first rule `name` breaks.
fn check(name: &[char], feature: bool) -> (r: Option<NameRule>)
    ensures
        r == name_rule(name@, feature),
{
    if name.len() == 0 || !alnum(name[0]) {
        return Some(NameRule::Begin);
    }
    let mut i: usize = 1;
    while i < name.len()
        invariant
            1 <= i <= name@.len(),
            is_alnum(name@[0]),
            forall|j: int| 1 <= j < i ==> name_char(name@[j]),
        decreases name@.len() - i,
    {
        let c = name[i];
        if !(alnum(c) || c == '-' || c == '_') {
            assert(!name_char(name@[i as int]));
            return Some(NameRule::Chars);
        }
        i += 1;
    }
    if feature {
        let default = chars_of("default");
        if crate::text::same(name, &default) {
            return Some(NameRule::Default);
        }
    }
    None
}

/// `name` as a name of `kind`, or why not.
fn checked(name: &str, kind: NameKind) -> (r: Result<String, NameError>)
    ensures
        match r {
            Ok(s) => s@ == name@ && name_rule(name@, kind == NameKind::Feature) is None,
            Err(e) => e.name@ == name@ && e.kind == kind && name_rule(name@, kind
                == NameKind::Feature) == Some(e.rule),
        },
{
    let chars = chars_of(name);
    match check(&chars, kind == NameKind::Feature) {
        None => Ok(name.to_owned()),
        Some(rule) => Err(NameError { kind, name: name.to_owned(), rule }),
    }
}

/// A profile's name, unique in its source and among a target's layers.
#[derive(Debug, PartialEq, Eq, PartialOrd, Ord, Hash)]
pub struct ProfileName {
    text: String,
}

/// The name a target gives a source in `[sources]`.
#[derive(Debug, PartialEq, Eq, PartialOrd, Ord, Hash)]
pub struct SourceName {
    text: String,
}

/// A feature of a profile; never `default`, which names the list of features on by default.
#[derive(Debug, PartialEq, Eq, PartialOrd, Ord, Hash)]
pub struct FeatureName {
    text: String,
}

/// A group of starter files in a profile's `[scaffolds]`.
#[derive(Debug, PartialEq, Eq, PartialOrd, Ord, Hash)]
pub struct ScaffoldName {
    text: String,
}

impl View for ProfileName {
    type V = Seq<char>;

    closed spec fn view(&self) -> Seq<char> {
        self.text@
    }
}

impl View for SourceName {
    type V = Seq<char>;

    closed spec fn view(&self) -> Seq<char> {
        self.text@
    }
}

impl View for FeatureName {
    type V = Seq<char>;

    closed spec fn view(&self) -> Seq<char> {
        self.text@
    }
}

impl View for ScaffoldName {
    type V = Seq<char>;

    closed spec fn view(&self) -> Seq<char> {
        self.text@
    }
}

impl Clone for ProfileName {
    fn clone(&self) -> (out: Self)
        ensures
            out == *self,
    {
        ProfileName { text: self.text.clone() }
    }
}

impl Clone for SourceName {
    fn clone(&self) -> (out: Self)
        ensures
            out == *self,
    {
        SourceName { text: self.text.clone() }
    }
}

impl Clone for FeatureName {
    fn clone(&self) -> (out: Self)
        ensures
            out == *self,
    {
        FeatureName { text: self.text.clone() }
    }
}

impl Clone for ScaffoldName {
    fn clone(&self) -> (out: Self)
        ensures
            out == *self,
    {
        ScaffoldName { text: self.text.clone() }
    }
}

impl ProfileName {
    /// `name`, checked.
    pub fn new(name: &str) -> (r: Result<Self, NameError>)
        ensures
            match r {
                Ok(n) => n@ == name@ && name_rule(name@, false) is None,
                Err(e) => e.name@ == name@ && e.kind == NameKind::Profile && name_rule(name@, false)
                    == Some(e.rule),
            },
    {
        match checked(name, NameKind::Profile) {
            Ok(text) => Ok(ProfileName { text }),
            Err(e) => Err(e),
        }
    }

    /// The name as written.
    pub fn as_str(&self) -> (r: &str)
        ensures
            r@ == self@,
    {
        self.text.as_str()
    }

    /// Whether two names are one.
    pub fn same(&self, other: &Self) -> (r: bool)
        ensures
            r == (self@ == other@),
    {
        self.text == other.text
    }
}

impl SourceName {
    /// `name`, checked.
    pub fn new(name: &str) -> (r: Result<Self, NameError>)
        ensures
            match r {
                Ok(n) => n@ == name@ && name_rule(name@, false) is None,
                Err(e) => e.name@ == name@ && e.kind == NameKind::Source && name_rule(name@, false)
                    == Some(e.rule),
            },
    {
        match checked(name, NameKind::Source) {
            Ok(text) => Ok(SourceName { text }),
            Err(e) => Err(e),
        }
    }

    /// The name as written.
    pub fn as_str(&self) -> (r: &str)
        ensures
            r@ == self@,
    {
        self.text.as_str()
    }

    /// Whether two names are one.
    pub fn same(&self, other: &Self) -> (r: bool)
        ensures
            r == (self@ == other@),
    {
        self.text == other.text
    }
}

impl FeatureName {
    /// `name`, checked: never `default`.
    pub fn new(name: &str) -> (r: Result<Self, NameError>)
        ensures
            match r {
                Ok(n) => n@ == name@ && name_rule(name@, true) is None,
                Err(e) => e.name@ == name@ && e.kind == NameKind::Feature && name_rule(name@, true)
                    == Some(e.rule),
            },
    {
        match checked(name, NameKind::Feature) {
            Ok(text) => Ok(FeatureName { text }),
            Err(e) => Err(e),
        }
    }

    /// The name as written.
    pub fn as_str(&self) -> (r: &str)
        ensures
            r@ == self@,
    {
        self.text.as_str()
    }

    /// Whether two names are one.
    pub fn same(&self, other: &Self) -> (r: bool)
        ensures
            r == (self@ == other@),
    {
        self.text == other.text
    }
}

impl ScaffoldName {
    /// `name`, checked.
    pub fn new(name: &str) -> (r: Result<Self, NameError>)
        ensures
            match r {
                Ok(n) => n@ == name@ && name_rule(name@, false) is None,
                Err(e) => e.name@ == name@ && e.kind == NameKind::Scaffold && name_rule(name@, false)
                    == Some(e.rule),
            },
    {
        match checked(name, NameKind::Scaffold) {
            Ok(text) => Ok(ScaffoldName { text }),
            Err(e) => Err(e),
        }
    }

    /// The name as written.
    pub fn as_str(&self) -> (r: &str)
        ensures
            r@ == self@,
    {
        self.text.as_str()
    }

    /// Whether two names are one.
    pub fn same(&self, other: &Self) -> (r: bool)
        ensures
            r == (self@ == other@),
    {
        self.text == other.text
    }
}

/// What `written` names, `first/second`, when it splits at its first `/` into two names of which
/// the second is a profile's (`feature` false) or a scaffold group's.
pub open spec fn qualified(written: Seq<char>) -> Option<(Seq<char>, Seq<char>)> {
    match split_once(written, '/') {
        Some((a, b)) => if name_rule(a, false) is None && name_rule(b, false) is None {
            Some((a, b))
        } else {
            None
        },
        None => None,
    }
}

/// `written` split at its first `/`, or the error `kind` gives a name written without one.
fn halves(written: &str, kind: NameKind, rule: NameRule) -> (r: Result<(String, String), NameError>)
    ensures
        match r {
            Ok((a, b)) => split_once(written@, '/') == Some((a@, b@)),
            Err(e) => split_once(written@, '/') is None && e.kind == kind && e.name@ == written@
                && e.rule == rule,
        },
{
    let chars = chars_of(written);
    match find_char(&chars, '/') {
        None => Err(NameError { kind, name: written.to_owned(), rule }),
        Some(at) => {
            let n = chars.len();
            assert(at < n);
            let a = slice_of(&chars, 0, at);
            let b = slice_of(&chars, at + 1, n);
            assert(a@ == written@.take(at as int));
            assert(b@ == written@.skip(at + 1));
            Ok((string_of(&a), string_of(&b)))
        },
    }
}

/// A profile in a named source, `source/profile`: how a target names a layer.
#[derive(Debug, PartialEq, Eq, PartialOrd, Ord, Hash)]
pub struct ProfileRef {
    /// The source, as `[sources]` names it.
    pub source: SourceName,
    /// The profile, by its name in that source.
    pub profile: ProfileName,
}

impl Clone for ProfileRef {
    fn clone(&self) -> (out: Self)
        ensures
            out.source@ == self.source@ && out.profile@ == self.profile@,
    {
        ProfileRef { source: self.source.clone(), profile: self.profile.clone() }
    }
}

impl ProfileRef {
    /// The layer `written` names: `source/profile`.
    ///
    /// Fails when it has no `/`, or either side is not a name; the error names the first.
    pub fn parse(written: &str) -> (r: Result<Self, NameError>)
        ensures
            r is Ok <==> qualified(written@) is Some,
            r matches Ok(at) ==> qualified(written@) == Some((at.source@, at.profile@)),
            split_once(written@, '/') is None ==> (r matches Err(e) && e.kind == NameKind::Layer
                && e.rule == NameRule::Layer && e.name@ == written@),
    {
        let (source, profile) = match halves(written, NameKind::Layer, NameRule::Layer) {
            Ok(parts) => parts,
            Err(e) => return Err(e),
        };
        let source = match SourceName::new(source.as_str()) {
            Ok(source) => source,
            Err(e) => return Err(e),
        };
        let profile = match ProfileName::new(profile.as_str()) {
            Ok(profile) => profile,
            Err(e) => return Err(e),
        };
        Ok(ProfileRef { source, profile })
    }

    /// `source/profile`, as written.
    pub fn to_string(&self) -> (r: String)
        ensures
            r@ == self.source@ + "/"@ + self.profile@,
    {
        let out = cat(self.source.as_str(), "/");
        cat(out.as_str(), self.profile.as_str())
    }
}

/// A layer written out reads back as itself: `parse` of `to_string` gives the same source and
/// profile, for every pair of valid names.
pub proof fn layer_round_trip(source: Seq<char>, profile: Seq<char>)
    requires
        name_rule(source, false) is None,
        name_rule(profile, false) is None,
    ensures
        qualified(source + "/"@ + profile) == Some((source, profile)),
{
    let w = source + "/"@ + profile;
    reveal_strlit("/");
    let n = source.len() as int;
    assert(w[n] == '/');
    assert forall|j: int| 0 <= j < n implies w[j] != '/' by {
        assert(w[j] == source[j]);
        if j > 0 {
            assert(name_char(source[j]));
        }
    }
    assert(has(w, '/'));
    let i = choose|i: int| 0 <= i < w.len() && w[i] == '/' && forall|j: int| 0 <= j < i ==> w[j] != '/';
    if i < n {
        assert(w[i] != '/');
    } else if i > n {
        assert(w[n] != '/');
    }
    assert(w.take(n) =~= source);
    assert(w.skip(n + 1) =~= profile);
}

/// A scaffold of a profile, `profile/group`: how the command line and `state.toml` name it.
#[derive(Debug, PartialEq, Eq, PartialOrd, Ord, Hash)]
pub struct ScaffoldId {
    /// The profile.
    pub profile: ProfileName,
    /// The group, in its `[scaffolds]`.
    pub group: ScaffoldName,
}

impl Clone for ScaffoldId {
    fn clone(&self) -> (out: Self)
        ensures
            out.profile@ == self.profile@ && out.group@ == self.group@,
    {
        ScaffoldId { profile: self.profile.clone(), group: self.group.clone() }
    }
}

impl ScaffoldId {
    /// The scaffold `written` names: `profile/group`.
    pub fn parse(written: &str) -> (r: Result<Self, NameError>)
        ensures
            r is Ok <==> qualified(written@) is Some,
            r matches Ok(id) ==> qualified(written@) == Some((id.profile@, id.group@)),
            split_once(written@, '/') is None ==> (r matches Err(e) && e.kind
                == NameKind::Scaffold && e.rule == NameRule::Group && e.name@ == written@),
    {
        let (profile, group) = match halves(written, NameKind::Scaffold, NameRule::Group) {
            Ok(parts) => parts,
            Err(e) => return Err(e),
        };
        let profile = match ProfileName::new(profile.as_str()) {
            Ok(profile) => profile,
            Err(e) => return Err(e),
        };
        let group = match ScaffoldName::new(group.as_str()) {
            Ok(group) => group,
            Err(e) => return Err(e),
        };
        Ok(ScaffoldId { profile, group })
    }

    /// `profile/group`, as written.
    pub fn to_string(&self) -> (r: String)
        ensures
            r@ == self.profile@ + "/"@ + self.group@,
    {
        let out = cat(self.profile.as_str(), "/");
        cat(out.as_str(), self.group.as_str())
    }

    /// Whether two ids name one scaffold.
    pub fn same(&self, other: &Self) -> (r: bool)
        ensures
            r == (self.profile@ == other.profile@ && self.group@ == other.group@),
    {
        self.profile.same(&other.profile) && self.group.same(&other.group)
    }
}

/// `names` in text order.
pub fn sort_names(names: &Vec<ProfileName>) -> (out: Vec<ProfileName>)
    ensures
        out@.map_values(|n: ProfileName| n@) == names@.map_values(|n: ProfileName| n@).sort_by(crate::order::text_order()),
{
    let mut texts: Vec<String> = Vec::new();
    let mut i: usize = 0;
    while i < names.len()
        invariant
            i <= names@.len(),
            crate::order::texts(texts@) == names@.take(i as int).map_values(|n: ProfileName| n@),
        decreases names@.len() - i,
    {
        let ghost before = crate::order::texts(texts@);
        texts.push(names[i].text.clone());
        assert(crate::order::texts(texts@) =~= before.push(names@[i as int]@));
        i += 1;
        assert(names@.take(i as int).map_values(|n: ProfileName| n@) =~= names@.take(i - 1).map_values(|n: ProfileName| n@).push(names@[i - 1]@));
    }
    assert(names@.take(names@.len() as int) == names@);
    let sorted = crate::order::sort_texts(texts);
    let mut out: Vec<ProfileName> = Vec::new();
    let mut k: usize = 0;
    while k < sorted.len()
        invariant
            k <= sorted@.len(),
            out@.map_values(|n: ProfileName| n@) == crate::order::texts(sorted@).take(k as int),
        decreases sorted@.len() - k,
    {
        let ghost before = out@.map_values(|n: ProfileName| n@);
        out.push(ProfileName { text: sorted[k].clone() });
        assert(out@.map_values(|n: ProfileName| n@) =~= before.push(sorted@[k as int]@));
        k += 1;
        assert(crate::order::texts(sorted@).take(k as int) =~= crate::order::texts(sorted@).take(k - 1).push(sorted@[k - 1]@));
    }
    assert(crate::order::texts(sorted@).take(sorted@.len() as int) == crate::order::texts(sorted@));
    out
}

} // verus!
