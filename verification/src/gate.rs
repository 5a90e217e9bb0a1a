//! Gates: whether an entry applies.
//!
//! An entry's `when` holds when every condition does. `features`, `profiles` and `vars` are
//! settled first, from the graph and the answers. Scaffolds and `exists` are settled against the
//! disk:
//!
//! - A scaffold is decided once: written when none of its sentinels was there, found otherwise, and
//!   recorded. A found group's files are off.
//! - `exists` holds when a path will exist once the run is done: on disk and not removed by it, or
//!   written by it, whole or as a part. It only ever turns entries on, so it settles as a least
//!   fixpoint: every entry it gates starts off, and each round turns on those whose paths will
//!   exist, until none turns on. An entry is never its own evidence.

use vstd::prelude::*;

use crate::errors::TargetError;
use crate::name::{FeatureName, ProfileName, ScaffoldId};
use crate::part::Slot;
use crate::plan::keeps_of;
use crate::survey::Entry;
use crate::target::{Scaffold, Scaffolded};
use crate::path::{PathError, RelPath};
use crate::profile::When;
use crate::text::{cat, chars_of, contains_char, first_set, has, quoted, debug_str, views};
use crate::vars::VarName;

verus! {

/// Why an entry does not apply, as values.
pub enum Why {
    /// A feature is off.
    Feature(Seq<char>),
    /// A profile is not active.
    Profile(Seq<char>),
    /// A variable's answer.
    Var(Seq<char>, Seq<char>),
    /// A scaffold found the target's own.
    Found(Seq<char>, Seq<char>),
    /// A scaffold wrote it elsewhere.
    Moved(Seq<char>, Seq<char>, Seq<char>),
    /// A pattern will not exist.
    Absent(Seq<char>),
}

/// Why an entry does not apply.
#[derive(Debug)]
pub enum Reason {
    /// A feature of its profile is off.
    Feature(FeatureName),
    /// A profile is not active in the target.
    Profile(ProfileName),
    /// A variable's answer is none of the values `when` names.
    Var {
        /// The variable.
        name: VarName,
        /// Its answer.
        answer: String,
    },
    /// Its scaffold found the target's own files.
    Found(ScaffoldId),
    /// Its scaffold wrote it elsewhere, before an answer moved its path; it stays there.
    Moved {
        /// The scaffold.
        scaffold: ScaffoldId,
        /// Where it wrote it.
        path: RelPath,
    },
    /// A path, or a glob, will not exist when the run is done.
    Absent(String),
}

impl View for Reason {
    type V = Why;

    open spec fn view(&self) -> Why {
        match self {
            Reason::Feature(f) => Why::Feature(f@),
            Reason::Profile(p) => Why::Profile(p@),
            Reason::Var { name, answer } => Why::Var(name@, answer@),
            Reason::Found(id) => Why::Found(id.profile@, id.group@),
            Reason::Moved { scaffold, path } => Why::Moved(scaffold.profile@, scaffold.group@, path@),
            Reason::Absent(p) => Why::Absent(p@),
        }
    }
}

impl Clone for Reason {
    fn clone(&self) -> (out: Self)
        ensures
            out@ == self@,
    {
        match self {
            Reason::Feature(f) => Reason::Feature(f.clone()),
            Reason::Profile(p) => Reason::Profile(p.clone()),
            Reason::Var { name, answer } => Reason::Var { name: name.clone(), answer: answer.clone() },
            Reason::Found(id) => Reason::Found(id.clone()),
            Reason::Moved { scaffold, path } => Reason::Moved { scaffold: scaffold.clone(), path: path.clone() },
            Reason::Absent(p) => Reason::Absent(p.clone()),
        }
    }
}

/// What a [`Reason`] says.
pub open spec fn reason_message(r: Why) -> Seq<char> {
    match r {
        Why::Feature(f) => "feature "@ + f + " is off"@,
        Why::Profile(p) => "profile "@ + p + " is not active"@,
        Why::Var(name, answer) => name + " is "@ + debug_str(answer),
        Why::Found(p, g) => "scaffold "@ + p + "/"@ + g + " found the target's own"@,
        Why::Moved(p, g, path) => "scaffold "@ + p + "/"@ + g + " wrote it at "@ + path,
        Why::Absent(pattern) => pattern + " will not exist"@,
    }
}

impl Reason {
    /// The reason as a message: `feature katex is off`.
    pub fn to_string(&self) -> (r: String)
        ensures
            r@ == reason_message(self@),
    {
        match self {
            Reason::Feature(f) => {
                let out = cat("feature ", f.as_str());
                cat(out.as_str(), " is off")
            },
            Reason::Profile(p) => {
                let out = cat("profile ", p.as_str());
                cat(out.as_str(), " is not active")
            },
            Reason::Var { name, answer } => {
                let out = cat(name.as_str(), " is ");
                cat(out.as_str(), quoted(answer.as_str()).as_str())
            },
            Reason::Found(id) => {
                let out = cat("scaffold ", id.to_string().as_str());
                cat(out.as_str(), " found the target's own")
            },
            Reason::Moved { scaffold, path } => {
                let out = cat("scaffold ", scaffold.to_string().as_str());
                let out = cat(out.as_str(), " wrote it at ");
                cat(out.as_str(), path.as_str())
            },
            Reason::Absent(pattern) => cat(pattern.as_str(), " will not exist"),
        }
    }
}

/// What `globset` says of `written` as a glob built with `literal_separator` as given: `None`
/// when it builds, else the error kind's message.
pub uninterp spec fn glob_fault(written: Seq<char>, literal_separator: bool) -> Option<Seq<char>>;

/// Whether the glob `written`, built with `literal_separator` as given, matches `path`.
pub uninterp spec fn glob_matches(written: Seq<char>, literal_separator: bool, path: Seq<char>) -> bool;

/// `written` built as a glob by `globset::GlobBuilder`; the error kind's message if it fails.
#[verifier::external_body]
fn build_glob(written: &str, literal_separator: bool) -> (r: Option<String>)
    ensures
        match r {
            None => glob_fault(written@, literal_separator) is None,
            Some(m) => glob_fault(written@, literal_separator) == Some(m@),
        },
{
    match globset::GlobBuilder::new(written).literal_separator(literal_separator).build() {
        Ok(_) => None,
        Err(e) => Some(e.kind().to_string()),
    }
}

/// Whether the glob `written`, built by `globset::GlobBuilder`, matches `path`: its matcher's
/// `is_match`.
#[verifier::external_body]
fn match_glob(written: &str, literal_separator: bool, path: &str) -> (r: bool)
    requires
        glob_fault(written@, literal_separator) is None,
    ensures
        r == glob_matches(written@, literal_separator, path@),
{
    match globset::GlobBuilder::new(written).literal_separator(literal_separator).build() {
        Ok(glob) => glob.compile_matcher().is_match(path),
        Err(_) => false,
    }
}

/// A path in the target, or a glob over its paths: `*` within a component, `**` across them.
#[derive(Debug)]
pub enum Pattern {
    /// One path.
    Path(RelPath),
    /// A glob, as written, variables answered; it builds.
    Glob(String),
}

/// Whether `written` reads as a glob: it has any of `*?[{`.
pub open spec fn globbed(written: Seq<char>) -> bool {
    has(written, '*') || has(written, '?') || has(written, '[') || has(written, '{')
}

/// A pattern as written.
pub open spec fn pattern_text(p: Pattern) -> Seq<char> {
    match p {
        Pattern::Path(path) => path@,
        Pattern::Glob(written) => written@,
    }
}

/// Whether `p` is a pattern: a path, or a glob that builds.
pub open spec fn pattern_wf(p: Pattern) -> bool {
    match p {
        Pattern::Path(_) => true,
        Pattern::Glob(written) => glob_fault(written@, true) is None,
    }
}

impl Pattern {
    /// `written` as a path, or as a glob when it has any of `*?[{`.
    ///
    /// Fails with why it is neither: the path's error, or the glob's.
    pub fn parse(written: &str) -> (r: Result<Pattern, String>)
        ensures
            match r {
                Ok(p) => pattern_wf(p) && pattern_text(p) == written@ && (p is Glob <==> globbed(written@)),
                Err(m) => if globbed(written@) {
                    glob_fault(written@, true) == Some(m@)
                } else {
                    crate::path::path_rule(written@) is Some
                },
            },
    {
        let chars = chars_of(written);
        if !(contains_char(&chars, '*') || contains_char(&chars, '?') || contains_char(&chars, '[')
            || contains_char(&chars, '{')) {
            return match RelPath::new(written) {
                Ok(path) => Ok(Pattern::Path(path)),
                Err(e) => Err(e.message()),
            };
        }
        match build_glob(written, true) {
            None => Ok(Pattern::Glob(written.to_owned())),
            Some(m) => Err(m),
        }
    }

    /// As written.
    pub fn as_str(&self) -> (r: &str)
        ensures
            r@ == pattern_text(*self),
    {
        match self {
            Pattern::Path(path) => path.as_str(),
            Pattern::Glob(written) => written.as_str(),
        }
    }

    /// Whether the pattern names `path`: it is `path`, or a glob matching it.
    pub fn names(&self, path: &RelPath) -> (r: bool)
        requires
            pattern_wf(*self),
        ensures
            r == match *self {
                Pattern::Path(p) => p@ == path@,
                Pattern::Glob(written) => glob_matches(written@, true, path@),
            },
    {
        match self {
            Pattern::Path(p) => p.same(path),
            Pattern::Glob(written) => match_glob(written.as_str(), true, path.as_str()),
        }
    }
}

impl Clone for Pattern {
    fn clone(&self) -> (out: Self)
        ensures
            out == *self,
    {
        match self {
            Pattern::Path(p) => Pattern::Path(p.clone()),
            Pattern::Glob(w) => Pattern::Glob(w.clone()),
        }
    }
}

/// Whether `names` holds the name `n`.
pub open spec fn named<T: View<V = Seq<char>>>(names: Seq<T>, n: Seq<char>) -> bool {
    exists|i: int| 0 <= i < names.len() && (#[trigger] names[i])@ == n
}

/// The answer `answers` gives the variable `name`: its first; empty when none.
pub open spec fn answer_of(answers: Seq<(VarName, String)>, name: Seq<char>) -> Seq<char> {
    match first_set(answers.map_values(|a: (VarName, String)| if a.0@ == name {
        Some(a.1@)
    } else {
        None
    })) {
        Some(a) => a,
        None => Seq::empty(),
    }
}

/// Why `gate` does not hold for a layer with the features `on`, among the `active` profiles
/// and `answers`: its first feature that is off, else its first profile that is not active,
/// else its first variable whose answer it does not list; `None` when it holds.
pub open spec fn check_spec(
    gate: When,
    on: Seq<FeatureName>,
    active: Seq<ProfileName>,
    answers: Seq<(VarName, String)>,
) -> Option<Why> {
    match first_set(gate.features@.map_values(|f: FeatureName| if named(on, f@) {
        None
    } else {
        Some(f@)
    })) {
        Some(f) => Some(Why::Feature(f)),
        None => match first_set(gate.profiles@.map_values(|p: ProfileName| if named(active, p@) {
            None
        } else {
            Some(p@)
        })) {
            Some(p) => Some(Why::Profile(p)),
            None => first_set(gate.vars@.map_values(|v: (VarName, Vec<String>)| if views(v.1@).contains(
                answer_of(answers, v.0@),
            ) {
                None
            } else {
                Some(Why::Var(v.0@, answer_of(answers, v.0@)))
            })),
        },
    }
}

/// A sequence that sets no value has none first.
proof fn lemma_first_set_none<T>(values: Seq<Option<T>>)
    requires
        forall|k: int| 0 <= k < values.len() ==> (#[trigger] values[k]) is None,
    ensures
        first_set(values) is None,
    decreases values.len(),
{
    if values.len() > 0 {
        assert forall|k: int| 0 <= k < values.drop_last().len() implies (#[trigger] values.drop_last()[k]) is None by {
            assert(values.drop_last()[k] == values[k]);
        }
        lemma_first_set_none(values.drop_last());
    }
}

/// What a sequence has first it sets at a place before which it sets nothing.
proof fn lemma_first_set_first<T>(values: Seq<Option<T>>)
    ensures
        first_set(values) matches Some(v) ==> exists|k: int| 0 <= k < values.len() && values[k] == Some(v) && forall|j: int| 0 <= j < k
            ==> (#[trigger] values[j]) is None,
    decreases values.len(),
{
    if values.len() > 0 {
        let init = values.drop_last();
        lemma_first_set_first(init);
        if let Some(v) = first_set(init) {
            let k = choose|k: int| 0 <= k < init.len() && init[k] == Some(v) && forall|j: int| 0 <= j < k ==> (#[trigger] init[j]) is None;
            assert(values[k] == init[k]);
            assert forall|j: int| 0 <= j < k implies (#[trigger] values[j]) is None by {
                assert(values[j] == init[j]);
            }
        } else if first_set(values) is Some {
            lemma_first_set(init);
            assert forall|j: int| 0 <= j < values.len() - 1 implies (#[trigger] values[j]) is None by {
                assert(values[j] == init[j]);
            }
        }
    }
}

/// A sequence sets no value exactly when it has none first; what it has first it sets somewhere.
proof fn lemma_first_set<T>(values: Seq<Option<T>>)
    ensures
        first_set(values) is None <==> forall|k: int| 0 <= k < values.len() ==> (#[trigger] values[k]) is None,
        first_set(values) matches Some(v) ==> exists|k: int| 0 <= k < values.len() && values[k] == Some(v),
{
    crate::text::lemma_first_set_in(values);
    if forall|k: int| 0 <= k < values.len() ==> (#[trigger] values[k]) is None {
        lemma_first_set_none(values);
    } else {
        let k = choose|k: int| 0 <= k < values.len() && !((#[trigger] values[k]) is None);
        crate::text::lemma_first_set_some(values, k);
    }
}

/// A gate holds exactly when every condition it sets does: each feature it names is on, each
/// profile it names is active, and each variable's answer is among the values it lists. When it
/// does not hold, its reason is a condition of it that fails: a feature it names that is off, a
/// profile it names that is not active, or a variable it names with an answer it does not list.
pub proof fn gate_holds_when_every_condition_does(
    gate: When,
    on: Seq<FeatureName>,
    active: Seq<ProfileName>,
    answers: Seq<(VarName, String)>,
)
    ensures
        check_spec(gate, on, active, answers) is None <==> ({
            &&& forall|i: int| 0 <= i < gate.features@.len() ==> named(on, (#[trigger] gate.features@[i])@)
            &&& forall|i: int| 0 <= i < gate.profiles@.len() ==> named(active, (#[trigger] gate.profiles@[i])@)
            &&& forall|i: int| 0 <= i < gate.vars@.len() ==> views((#[trigger] gate.vars@[i]).1@).contains(answer_of(answers, gate.vars@[i].0@))
        }),
        check_spec(gate, on, active, answers) matches Some(Why::Feature(f)) ==> exists|i: int| 0 <= i < gate.features@.len()
            && (#[trigger] gate.features@[i])@ == f && !named(on, f),
        check_spec(gate, on, active, answers) matches Some(Why::Profile(p)) ==> exists|i: int| 0 <= i < gate.profiles@.len()
            && (#[trigger] gate.profiles@[i])@ == p && !named(active, p),
        check_spec(gate, on, active, answers) matches Some(Why::Var(n, a)) ==> exists|i: int| 0 <= i < gate.vars@.len()
            && (#[trigger] gate.vars@[i]).0@ == n && a == answer_of(answers, n) && !views(gate.vars@[i].1@).contains(a),
        check_spec(gate, on, active, answers) matches Some(w) ==> (w is Feature || w is Profile || w is Var),
        check_spec(gate, on, active, answers) matches Some(Why::Feature(f)) ==> exists|i: int| 0 <= i < gate.features@.len()
            && (#[trigger] gate.features@[i])@ == f && forall|j: int| 0 <= j < i ==> named(on, (#[trigger] gate.features@[j])@),
        check_spec(gate, on, active, answers) matches Some(Why::Profile(p)) ==> (forall|i: int| 0 <= i < gate.features@.len() ==> named(
            on,
            (#[trigger] gate.features@[i])@,
        )) && exists|i: int| 0 <= i < gate.profiles@.len() && (#[trigger] gate.profiles@[i])@ == p && forall|j: int| 0 <= j < i ==> named(
            active,
            (#[trigger] gate.profiles@[j])@,
        ),
        check_spec(gate, on, active, answers) matches Some(Why::Var(n, a)) ==> (forall|i: int| 0 <= i < gate.features@.len() ==> named(
            on,
            (#[trigger] gate.features@[i])@,
        )) && (forall|i: int| 0 <= i < gate.profiles@.len() ==> named(active, (#[trigger] gate.profiles@[i])@)) && exists|i: int| 0 <= i
            < gate.vars@.len() && (#[trigger] gate.vars@[i]).0@ == n && forall|j: int| 0 <= j < i ==> views((#[trigger] gate.vars@[j]).1@).contains(
            answer_of(answers, gate.vars@[j].0@),
        ),
{
    let fs = gate.features@.map_values(|f: FeatureName| if named(on, f@) {
        None
    } else {
        Some(f@)
    });
    let ps = gate.profiles@.map_values(|p: ProfileName| if named(active, p@) {
        None
    } else {
        Some(p@)
    });
    let vs = gate.vars@.map_values(|v: (VarName, Vec<String>)| if views(v.1@).contains(answer_of(answers, v.0@)) {
        None
    } else {
        Some(Why::Var(v.0@, answer_of(answers, v.0@)))
    });
    lemma_first_set(fs);
    lemma_first_set(ps);
    lemma_first_set(vs);
    lemma_first_set_first(fs);
    lemma_first_set_first(ps);
    lemma_first_set_first(vs);
    if let Some(f) = first_set(fs) {
        let k = choose|k: int| 0 <= k < fs.len() && fs[k] == Some(f) && forall|j: int| 0 <= j < k ==> (#[trigger] fs[j]) is None;
        assert forall|j: int| 0 <= j < k implies named(on, (#[trigger] gate.features@[j])@) by {
            assert(fs[j] is None);
        }
    }
    if let Some(p) = first_set(ps) {
        let k = choose|k: int| 0 <= k < ps.len() && ps[k] == Some(p) && forall|j: int| 0 <= j < k ==> (#[trigger] ps[j]) is None;
        assert forall|j: int| 0 <= j < k implies named(active, (#[trigger] gate.profiles@[j])@) by {
            assert(ps[j] is None);
        }
    }
    assert((forall|i: int| 0 <= i < gate.features@.len() ==> named(on, (#[trigger] gate.features@[i])@)) <==> forall|k: int| 0 <= k < fs.len()
        ==> (#[trigger] fs[k]) is None) by {
        if forall|k: int| 0 <= k < fs.len() ==> (#[trigger] fs[k]) is None {
            assert forall|i: int| 0 <= i < gate.features@.len() implies named(on, (#[trigger] gate.features@[i])@) by {
                assert(fs[i] is None);
            }
        }
    }
    assert((forall|i: int| 0 <= i < gate.profiles@.len() ==> named(active, (#[trigger] gate.profiles@[i])@)) <==> forall|k: int| 0 <= k
        < ps.len() ==> (#[trigger] ps[k]) is None) by {
        if forall|k: int| 0 <= k < ps.len() ==> (#[trigger] ps[k]) is None {
            assert forall|i: int| 0 <= i < gate.profiles@.len() implies named(active, (#[trigger] gate.profiles@[i])@) by {
                assert(ps[i] is None);
            }
        }
    }
    assert((forall|i: int| 0 <= i < gate.vars@.len() ==> views((#[trigger] gate.vars@[i]).1@).contains(answer_of(answers, gate.vars@[i].0@)))
        <==> forall|k: int| 0 <= k < vs.len() ==> (#[trigger] vs[k]) is None) by {
        if forall|k: int| 0 <= k < vs.len() ==> (#[trigger] vs[k]) is None {
            assert forall|i: int| 0 <= i < gate.vars@.len() implies views((#[trigger] gate.vars@[i]).1@).contains(
                answer_of(answers, gate.vars@[i].0@),
            ) by {
                assert(vs[i] is None);
            }
        }
    }
    if let Some(w) = first_set(vs) {
        let k = choose|k: int| 0 <= k < vs.len() && vs[k] == Some(w) && forall|j: int| 0 <= j < k ==> (#[trigger] vs[j]) is None;
        assert(vs[k] == Some(Why::Var(gate.vars@[k].0@, answer_of(answers, gate.vars@[k].0@))));
        assert forall|j: int| 0 <= j < k implies views((#[trigger] gate.vars@[j]).1@).contains(answer_of(answers, gate.vars@[j].0@)) by {
            assert(vs[j] is None);
        }
    }
}

/// Whether `on` holds the feature `f`.
fn feature_on(on: &[FeatureName], f: &FeatureName) -> (r: bool)
    ensures
        r == named(on@, f@),
{
    let mut i: usize = 0;
    while i < on.len()
        invariant
            i <= on@.len(),
            forall|k: int| 0 <= k < i ==> (#[trigger] on@[k])@ != f@,
        decreases on@.len() - i,
    {
        if on[i].same(f) {
            return true;
        }
        i += 1;
    }
    false
}

/// Whether `active` holds the profile `p`.
fn profile_on(active: &[ProfileName], p: &ProfileName) -> (r: bool)
    ensures
        r == named(active@, p@),
{
    let mut i: usize = 0;
    while i < active.len()
        invariant
            i <= active@.len(),
            forall|k: int| 0 <= k < i ==> (#[trigger] active@[k])@ != p@,
        decreases active@.len() - i,
    {
        if active[i].same(p) {
            return true;
        }
        i += 1;
    }
    false
}

/// The answer `answers` gives `name`; empty when none.
fn answer(answers: &[(VarName, String)], name: &VarName) -> (r: String)
    ensures
        r@ == answer_of(answers@, name@),
{
    let ghost all = answers@.map_values(|a: (VarName, String)| if a.0@ == name@ {
        Some(a.1@)
    } else {
        None
    });
    let mut i: usize = 0;
    while i < answers.len()
        invariant
            i <= answers@.len(),
            all == answers@.map_values(|a: (VarName, String)| if a.0@ == name@ {
                Some(a.1@)
            } else {
                None
            }),
            first_set(all.take(i as int)) is None,
        decreases answers@.len() - i,
    {
        proof {
            crate::text::lemma_first_set_step(all, i as int);
        }
        if answers[i].0.same(name) {
            proof {
                crate::text::lemma_first_set_prefix(all, i + 1);
            }
            return answers[i].1.clone();
        }
        i += 1;
    }
    assert(all.take(answers@.len() as int) == all);
    String::new()
}

/// Whether `values` holds `v`.
fn listed(values: &Vec<String>, v: &String) -> (r: bool)
    ensures
        r == views(values@).contains(v@),
{
    let mut i: usize = 0;
    while i < values.len()
        invariant
            i <= values@.len(),
            forall|k: int| 0 <= k < i ==> values@[k]@ != v@,
        decreases values@.len() - i,
    {
        if values[i] == *v {
            assert(views(values@)[i as int] == v@);
            return true;
        }
        i += 1;
    }
    proof {
        if views(values@).contains(v@) {
            let k = choose|k: int| 0 <= k < values@.len() && views(values@)[k] == v@;
            assert(values@[k]@ == v@);
        }
    }
    false
}

/// Why `gate` does not hold for a layer with the features `on`, among the `active` profiles and
/// `answers`, as far as those tell; `None` when it does.
pub fn check(gate: &When, on: &[FeatureName], active: &[ProfileName], answers: &[(VarName, String)]) -> (r: Option<Reason>)
    ensures
        match r {
            None => check_spec(*gate, on@, active@, answers@) is None,
            Some(x) => check_spec(*gate, on@, active@, answers@) == Some(x@),
        },
{
    let ghost fs = gate.features@.map_values(|f: FeatureName| if named(on@, f@) {
        None
    } else {
        Some(f@)
    });
    let mut i: usize = 0;
    while i < gate.features.len()
        invariant
            i <= gate.features@.len(),
            fs == gate.features@.map_values(|f: FeatureName| if named(on@, f@) {
                None
            } else {
                Some(f@)
            }),
            first_set(fs.take(i as int)) is None,
        decreases gate.features@.len() - i,
    {
        proof {
            crate::text::lemma_first_set_step(fs, i as int);
        }
        if !feature_on(on, &gate.features[i]) {
            proof {
                crate::text::lemma_first_set_prefix(fs, i + 1);
            }
            return Some(Reason::Feature(gate.features[i].clone()));
        }
        i += 1;
    }
    assert(fs.take(gate.features@.len() as int) == fs);
    let ghost ps = gate.profiles@.map_values(|p: ProfileName| if named(active@, p@) {
        None
    } else {
        Some(p@)
    });
    let mut i: usize = 0;
    while i < gate.profiles.len()
        invariant
            i <= gate.profiles@.len(),
            fs == gate.features@.map_values(|f: FeatureName| if named(on@, f@) {
                None
            } else {
                Some(f@)
            }),
            first_set(fs) is None,
            ps == gate.profiles@.map_values(|p: ProfileName| if named(active@, p@) {
                None
            } else {
                Some(p@)
            }),
            first_set(ps.take(i as int)) is None,
        decreases gate.profiles@.len() - i,
    {
        proof {
            crate::text::lemma_first_set_step(ps, i as int);
        }
        if !profile_on(active, &gate.profiles[i]) {
            proof {
                crate::text::lemma_first_set_prefix(ps, i + 1);
            }
            return Some(Reason::Profile(gate.profiles[i].clone()));
        }
        i += 1;
    }
    assert(ps.take(gate.profiles@.len() as int) == ps);
    let ghost vs = gate.vars@.map_values(|v: (VarName, Vec<String>)| if views(v.1@).contains(
        answer_of(answers@, v.0@),
    ) {
        None
    } else {
        Some(Why::Var(v.0@, answer_of(answers@, v.0@)))
    });
    let mut i: usize = 0;
    while i < gate.vars.len()
        invariant
            i <= gate.vars@.len(),
            fs == gate.features@.map_values(|f: FeatureName| if named(on@, f@) {
                None
            } else {
                Some(f@)
            }),
            first_set(fs) is None,
            ps == gate.profiles@.map_values(|p: ProfileName| if named(active@, p@) {
                None
            } else {
                Some(p@)
            }),
            first_set(ps) is None,
            vs == gate.vars@.map_values(|v: (VarName, Vec<String>)| if views(v.1@).contains(
                answer_of(answers@, v.0@),
            ) {
                None
            } else {
                Some(Why::Var(v.0@, answer_of(answers@, v.0@)))
            }),
            first_set(vs.take(i as int)) is None,
        decreases gate.vars@.len() - i,
    {
        proof {
            crate::text::lemma_first_set_step(vs, i as int);
        }
        let (name, values) = (&gate.vars[i].0, &gate.vars[i].1);
        let given = answer(answers, name);
        if !listed(values, &given) {
            proof {
                crate::text::lemma_first_set_prefix(vs, i + 1);
            }
            return Some(Reason::Var { name: name.clone(), answer: given });
        }
        i += 1;
    }
    assert(vs.take(gate.vars@.len() as int) == vs);
    None
}

/// One entry, as `exists` gates see it: its path, and whether that path will be there once the
/// run is done when the entry applies, and when it does not.
#[derive(Debug)]
pub struct Fact {
    /// The entry's file.
    pub path: RelPath,
    /// Whether the file will be there when the entry applies.
    pub kept_on: bool,
    /// Whether the file will be there when it does not.
    pub kept_off: bool,
}

/// What is on disk, as far as `exists` asks: every path found there, file or directory; and
/// every file a walk of the target finds.
#[derive(Debug)]
pub struct Disk {
    /// Paths that are there.
    pub there: Vec<RelPath>,
    /// Every file no `.gitignore` excludes, `.git` and `.devset` left out.
    pub files: Vec<RelPath>,
}

/// Whether the disk has `p`.
pub open spec fn on_disk(disk: Disk, p: Seq<char>) -> bool {
    named(disk.there@, p) || named(disk.files@, p)
}

/// Whether an entry other than `own` manages `p`.
pub open spec fn others_at(facts: Seq<Fact>, own: int, p: Seq<char>) -> bool {
    exists|i: int| 0 <= i < facts.len() && i != own && (#[trigger] facts[i]).path@ == p
}

/// Whether `q` lies under the directory `p`.
pub open spec fn under(q: Seq<char>, p: Seq<char>) -> bool {
    crate::text::starts(q, p.push('/'))
}

/// Whether the `i`th entry keeps its file, applying as `on` says.
pub open spec fn keeps(facts: Seq<Fact>, on: Seq<bool>, i: int) -> bool {
    if on[i] {
        facts[i].kept_on
    } else {
        facts[i].kept_off
    }
}

/// Whether `p` will exist, each entry but `own` applying as `on` says: a file an entry keeps or
/// writes; when no other entry manages it, what is on disk, or a directory an entry keeps a file
/// under. `bound` is at least the length of every managed path.
pub open spec fn stays(facts: Seq<Fact>, disk: Disk, on: Seq<bool>, own: int, p: Seq<char>, bound: int) -> bool
    decreases bound - p.len(),
{
    if others_at(facts, own, p) {
        exists|i: int| 0 <= i < facts.len() && i != own && (#[trigger] facts[i]).path@ == p && keeps(facts, on, i)
    } else {
        on_disk(disk, p) || exists|i: int|
            0 <= i < facts.len() && under((#[trigger] facts[i]).path@, p) && facts[i].path@.len() <= bound
                && stays(facts, disk, on, own, facts[i].path@, bound)
    }
}

/// Whether every entry keeps its file at least as much when it applies as when it does not.
pub open spec fn monotone(facts: Seq<Fact>) -> bool {
    forall|i: int| 0 <= i < facts.len() ==> ((#[trigger] facts[i]).kept_off ==> facts[i].kept_on)
}

/// Whether `a` turns on no more than `b` does.
pub open spec fn within(a: Seq<bool>, b: Seq<bool>) -> bool {
    a.len() == b.len() && forall|i: int| 0 <= i < a.len() ==> (#[trigger] a[i] ==> b[i])
}

/// Turning more entries on never takes a path away.
pub proof fn lemma_stays_monotone(
    facts: Seq<Fact>,
    disk: Disk,
    a: Seq<bool>,
    b: Seq<bool>,
    own: int,
    p: Seq<char>,
    bound: int,
)
    requires
        monotone(facts),
        a.len() == facts.len(),
        within(a, b),
        stays(facts, disk, a, own, p, bound),
    ensures
        stays(facts, disk, b, own, p, bound),
    decreases bound - p.len(),
{
    if others_at(facts, own, p) {
        let i = choose|i: int| 0 <= i < facts.len() && i != own && (#[trigger] facts[i]).path@ == p && keeps(facts, a, i);
        assert(keeps(facts, b, i));
    } else if !on_disk(disk, p) {
        let i = choose|i: int|
            0 <= i < facts.len() && under((#[trigger] facts[i]).path@, p) && facts[i].path@.len() <= bound
                && stays(facts, disk, a, own, facts[i].path@, bound);
        lemma_stays_monotone(facts, disk, a, b, own, facts[i].path@, bound);
    }
}

/// Whether `paths` holds `p`.
fn holds_path(paths: &Vec<RelPath>, p: &RelPath) -> (r: bool)
    ensures
        r == named(paths@, p@),
{
    let mut i: usize = 0;
    while i < paths.len()
        invariant
            i <= paths@.len(),
            forall|k: int| 0 <= k < i ==> (#[trigger] paths@[k])@ != p@,
        decreases paths@.len() - i,
    {
        if paths[i].same(p) {
            return true;
        }
        i += 1;
    }
    false
}

/// Whether `q` lies under the directory `p`.
fn is_under(q: &RelPath, p: &RelPath) -> (r: bool)
    ensures
        r == under(q@, p@),
{
    let mut dir = chars_of(p.as_str());
    dir.push('/');
    crate::text::starts_with(&chars_of(q.as_str()), &dir)
}

/// Whether `p` will exist, each entry but `own` applying as `on` says.
fn stays_now(facts: &Vec<Fact>, disk: &Disk, on: &Vec<bool>, own: usize, p: &RelPath, bound: usize) -> (r: bool)
    requires
        on@.len() == facts@.len(),
        forall|i: int| 0 <= i < facts@.len() ==> (#[trigger] facts@[i]).path@.len() <= bound,
    ensures
        r == stays(facts@, *disk, on@, own as int, p@, bound as int),
    decreases bound - p@.len(),
{
    let mut other = false;
    let mut kept = false;
    let mut i: usize = 0;
    while i < facts.len()
        invariant
            i <= facts@.len(),
            on@.len() == facts@.len(),
            other == exists|k: int| 0 <= k < i && k != own && (#[trigger] facts@[k]).path@ == p@,
            kept == exists|k: int| 0 <= k < i && k != own && (#[trigger] facts@[k]).path@ == p@ && keeps(facts@, on@, k),
        decreases facts@.len() - i,
    {
        if i != own && facts[i].path.same(p) {
            other = true;
            let keep = if on[i] {
                facts[i].kept_on
            } else {
                facts[i].kept_off
            };
            if keep {
                kept = true;
            }
        }
        i += 1;
    }
    if other {
        return kept;
    }
    if holds_path(&disk.there, p) || holds_path(&disk.files, p) {
        return true;
    }
    let mut i: usize = 0;
    while i < facts.len()
        invariant
            i <= facts@.len(),
            on@.len() == facts@.len(),
            forall|k: int| 0 <= k < facts@.len() ==> (#[trigger] facts@[k]).path@.len() <= bound,
            !others_at(facts@, own as int, p@),
            forall|k: int| 0 <= k < i ==> !(under((#[trigger] facts@[k]).path@, p@) && facts@[k].path@.len() <= bound
                && stays(facts@, *disk, on@, own as int, facts@[k].path@, bound as int)),
        decreases facts@.len() - i,
    {
        if is_under(&facts[i].path, p) {
            if stays_now(facts, disk, on, own, &facts[i].path, bound) {
                return true;
            }
        }
        i += 1;
    }
    false
}

/// Whether `facts` manages `p`.
pub open spec fn managed(facts: Seq<Fact>, p: Seq<char>) -> bool {
    exists|i: int| 0 <= i < facts.len() && (#[trigger] facts[i]).path@ == p
}

/// Whether `pattern` names a path that will exist, each entry applying as `on` says; the entry
/// at `own` asks, so its own path is judged without it. A glob looks at every managed path, and
/// at every file on disk no entry manages.
pub open spec fn holds(facts: Seq<Fact>, disk: Disk, on: Seq<bool>, own: int, pattern: Pattern, bound: int) -> bool {
    match pattern {
        Pattern::Path(p) => stays(facts, disk, on, own, p@, bound),
        Pattern::Glob(w) => (exists|i: int|
            0 <= i < facts.len() && glob_matches(w@, true, (#[trigger] facts[i]).path@) && stays(
                facts,
                disk,
                on,
                own,
                facts[i].path@,
                bound,
            )) || (exists|j: int|
            0 <= j < disk.files.len() && !managed(facts, (#[trigger] disk.files@[j])@) && glob_matches(
                w@,
                true,
                disk.files@[j]@,
            ) && stays(facts, disk, on, own, disk.files@[j]@, bound)),
    }
}

/// Turning more entries on never makes a pattern fail.
pub proof fn lemma_holds_monotone(
    facts: Seq<Fact>,
    disk: Disk,
    a: Seq<bool>,
    b: Seq<bool>,
    own: int,
    pattern: Pattern,
    bound: int,
)
    requires
        monotone(facts),
        a.len() == facts.len(),
        within(a, b),
        holds(facts, disk, a, own, pattern, bound),
    ensures
        holds(facts, disk, b, own, pattern, bound),
{
    match pattern {
        Pattern::Path(p) => {
            lemma_stays_monotone(facts, disk, a, b, own, p@, bound);
        },
        Pattern::Glob(w) => {
            if exists|i: int|
                0 <= i < facts.len() && glob_matches(w@, true, (#[trigger] facts[i]).path@) && stays(
                    facts,
                    disk,
                    a,
                    own,
                    facts[i].path@,
                    bound,
                ) {
                let i = choose|i: int|
                    0 <= i < facts.len() && glob_matches(w@, true, (#[trigger] facts[i]).path@) && stays(
                        facts,
                        disk,
                        a,
                        own,
                        facts[i].path@,
                        bound,
                    );
                lemma_stays_monotone(facts, disk, a, b, own, facts[i].path@, bound);
            } else {
                let j = choose|j: int|
                    0 <= j < disk.files.len() && !managed(facts, (#[trigger] disk.files@[j])@) && glob_matches(
                        w@,
                        true,
                        disk.files@[j]@,
                    ) && stays(facts, disk, a, own, disk.files@[j]@, bound);
                lemma_stays_monotone(facts, disk, a, b, own, disk.files@[j]@, bound);
            }
        },
    }
}

/// Whether `facts` manages `p`.
fn is_managed(facts: &Vec<Fact>, p: &RelPath) -> (r: bool)
    ensures
        r == managed(facts@, p@),
{
    let mut i: usize = 0;
    while i < facts.len()
        invariant
            i <= facts@.len(),
            forall|k: int| 0 <= k < i ==> (#[trigger] facts@[k]).path@ != p@,
        decreases facts@.len() - i,
    {
        if facts[i].path.same(p) {
            return true;
        }
        i += 1;
    }
    false
}

/// Whether `pattern` names a path that will exist, each entry applying as `on` says.
fn holds_now(facts: &Vec<Fact>, disk: &Disk, on: &Vec<bool>, own: usize, pattern: &Pattern, bound: usize) -> (r: bool)
    requires
        pattern_wf(*pattern),
        on@.len() == facts@.len(),
        forall|i: int| 0 <= i < facts@.len() ==> (#[trigger] facts@[i]).path@.len() <= bound,
    ensures
        r == holds(facts@, *disk, on@, own as int, *pattern, bound as int),
{
    match pattern {
        Pattern::Path(p) => stays_now(facts, disk, on, own, p, bound),
        Pattern::Glob(w) => {
            let mut i: usize = 0;
            while i < facts.len()
                invariant
                    i <= facts@.len(),
                    on@.len() == facts@.len(),
                    glob_fault(w@, true) is None,
                    *pattern == Pattern::Glob(*w),
                    forall|k: int| 0 <= k < facts@.len() ==> (#[trigger] facts@[k]).path@.len() <= bound,
                    forall|k: int| 0 <= k < i ==> !(glob_matches(w@, true, (#[trigger] facts@[k]).path@) && stays(
                        facts@,
                        *disk,
                        on@,
                        own as int,
                        facts@[k].path@,
                        bound as int,
                    )),
                decreases facts@.len() - i,
            {
                if match_glob(w.as_str(), true, facts[i].path.as_str()) && stays_now(facts, disk, on, own, &facts[i].path, bound) {
                    assert(0 <= i < facts@.len() && glob_matches(w@, true, facts@[i as int].path@) && stays(
                        facts@, *disk, on@, own as int, facts@[i as int].path@, bound as int));
                    return true;
                }
                i += 1;
            }
            let mut j: usize = 0;
            while j < disk.files.len()
                invariant
                    j <= disk.files@.len(),
                    on@.len() == facts@.len(),
                    glob_fault(w@, true) is None,
                    *pattern == Pattern::Glob(*w),
                    forall|k: int| 0 <= k < facts@.len() ==> (#[trigger] facts@[k]).path@.len() <= bound,
                    forall|k: int| 0 <= k < j ==> !(!managed(facts@, (#[trigger] disk.files@[k])@) && glob_matches(
                        w@,
                        true,
                        disk.files@[k]@,
                    ) && stays(facts@, *disk, on@, own as int, disk.files@[k]@, bound as int)),
                decreases disk.files@.len() - j,
            {
                let f = &disk.files[j];
                if !is_managed(facts, f) && match_glob(w.as_str(), true, f.as_str()) && stays_now(facts, disk, on, own, f, bound) {
                    assert(0 <= j < disk.files@.len() && !managed(facts@, disk.files@[j as int]@) && glob_matches(
                        w@, true, disk.files@[j as int]@) && stays(facts@, *disk, on@, own as int, disk.files@[j as int]@, bound as int));
                    return true;
                }
                j += 1;
            }
            false
        },
    }
}

/// An entry `exists` gates, by its index, with the paths and globs it names.
#[derive(Debug)]
pub struct Gated {
    /// The entry.
    pub at: usize,
    /// Its `when.exists`, rendered.
    pub patterns: Vec<Pattern>,
}

/// Whether every pattern of `g` holds, each entry applying as `on` says.
#[verifier::opaque]
pub open spec fn all_hold(facts: Seq<Fact>, disk: Disk, on: Seq<bool>, g: Gated, bound: int) -> bool {
    forall|k: int| 0 <= k < g.patterns@.len() ==> holds(facts, disk, on, g.at as int, #[trigger] g.patterns@[k], bound)
}

/// Whether `i` is gated.
pub open spec fn is_gated(gated: Seq<Gated>, i: int) -> bool {
    exists|j: int| 0 <= j < gated.len() && (#[trigger] gated[j]).at == i
}

/// Whether `gated` names each of `n` entries at most once, with patterns that parse.
pub open spec fn gated_wf(gated: Seq<Gated>, n: int) -> bool {
    &&& forall|j: int| 0 <= j < gated.len() ==> (#[trigger] gated[j]).at < n
    &&& forall|a: int, b: int| 0 <= a < b < gated.len() ==> (#[trigger] gated[a]).at != (#[trigger] gated[b]).at
    &&& forall|j: int, k: int| 0 <= j < gated.len() && 0 <= k < gated[j].patterns@.len() ==> pattern_wf(
        #[trigger] gated[j].patterns@[k])
}

/// Whether `on` is an assignment `exists` could settle on: the entries it does not gate as
/// `base` says, and every gated entry whose patterns all hold on.
pub open spec fn closed(facts: Seq<Fact>, disk: Disk, gated: Seq<Gated>, base: Seq<bool>, on: Seq<bool>, bound: int) -> bool {
    &&& on.len() == base.len()
    &&& forall|i: int| 0 <= i < on.len() && !is_gated(gated, i) ==> on[i] == base[i]
    &&& forall|j: int| 0 <= j < gated.len() && all_hold(facts, disk, on, #[trigger] gated[j], bound) ==> on[gated[j].at as int]
}

/// How many of `s` are on.
pub open spec fn ons(s: Seq<bool>) -> nat
    decreases s.len(),
{
    if s.len() == 0 {
        0
    } else {
        ons(s.drop_last()) + if s.last() {
            1nat
        } else {
            0nat
        }
    }
}

/// Turning entries on never lowers the count, and turning one on raises it.
proof fn lemma_ons(a: Seq<bool>, b: Seq<bool>, i: int)
    requires
        within(a, b),
    ensures
        ons(a) <= ons(b),
        ons(b) <= b.len(),
        0 <= i < a.len() && !a[i] && b[i] ==> ons(a) < ons(b),
    decreases a.len(),
{
    if a.len() > 0 {
        assert(within(a.drop_last(), b.drop_last()));
        lemma_ons(a.drop_last(), b.drop_last(), i);
    }
}

/// Every pattern of a gated entry that holds keeps holding as more entries turn on.
proof fn lemma_all_hold_monotone(facts: Seq<Fact>, disk: Disk, a: Seq<bool>, b: Seq<bool>, g: Gated, bound: int)
    requires
        monotone(facts),
        a.len() == facts.len(),
        within(a, b),
        all_hold(facts, disk, a, g, bound),
    ensures
        all_hold(facts, disk, b, g, bound),
{
    reveal(all_hold);
    assert forall|k: int| 0 <= k < g.patterns@.len() implies holds(facts, disk, b, g.at as int, #[trigger] g.patterns@[k], bound) by {
        lemma_holds_monotone(facts, disk, a, b, g.at as int, g.patterns@[k], bound);
    }
}

/// Whether every pattern of `g` holds, each entry applying as `on` says.
fn opens(facts: &Vec<Fact>, disk: &Disk, on: &Vec<bool>, g: &Gated, bound: usize) -> (r: bool)
    requires
        on@.len() == facts@.len(),
        forall|k: int| 0 <= k < g.patterns@.len() ==> pattern_wf(#[trigger] g.patterns@[k]),
        forall|i: int| 0 <= i < facts@.len() ==> (#[trigger] facts@[i]).path@.len() <= bound,
    ensures
        r == all_hold(facts@, *disk, on@, *g, bound as int),
{
    reveal(all_hold);
    let mut k: usize = 0;
    while k < g.patterns.len()
        invariant
            k <= g.patterns@.len(),
            on@.len() == facts@.len(),
            forall|m: int| 0 <= m < g.patterns@.len() ==> pattern_wf(#[trigger] g.patterns@[m]),
            forall|i: int| 0 <= i < facts@.len() ==> (#[trigger] facts@[i]).path@.len() <= bound,
            forall|m: int| 0 <= m < k ==> holds(facts@, *disk, on@, g.at as int, #[trigger] g.patterns@[m], bound as int),
        decreases g.patterns@.len() - k,
    {
        if !holds_now(facts, disk, on, g.at, &g.patterns[k], bound) {
            assert(!holds(facts@, *disk, on@, g.at as int, g.patterns@[k as int], bound as int));
            reveal(all_hold);
            return false;
        }
        k += 1;
    }
    true
}

/// Whether the `m`th gated entry is off and its patterns all hold, each entry applying as `on`
/// says: it turns on in this round.
pub open spec fn ready(facts: Seq<Fact>, disk: Disk, on: Seq<bool>, gated: Seq<Gated>, m: int, bound: int) -> bool {
    0 <= m < gated.len() && !on[gated[m].at as int] && all_hold(facts, disk, on, gated[m], bound)
}

/// The gated entries, by their place in `gated`, that turn on in this round.
fn round(facts: &Vec<Fact>, disk: &Disk, gated: &Vec<Gated>, on: &Vec<bool>, bound: usize) -> (turned: Vec<usize>)
    requires
        on@.len() == facts@.len(),
        gated_wf(gated@, facts@.len() as int),
        forall|i: int| 0 <= i < facts@.len() ==> (#[trigger] facts@[i]).path@.len() <= bound,
    ensures
        forall|t: int| 0 <= t < turned@.len() ==> ready(facts@, *disk, on@, gated@, #[trigger] turned@[t] as int, bound as int),
        forall|m: int| ready(facts@, *disk, on@, gated@, m, bound as int) ==> turned@.contains(m as usize),
{
    let mut turned: Vec<usize> = Vec::new();
    let mut j: usize = 0;
    while j < gated.len()
        invariant
            j <= gated@.len(),
            on@.len() == facts@.len(),
            gated_wf(gated@, facts@.len() as int),
            forall|i: int| 0 <= i < facts@.len() ==> (#[trigger] facts@[i]).path@.len() <= bound,
            forall|t: int| 0 <= t < turned@.len() ==> ready(facts@, *disk, on@, gated@, #[trigger] turned@[t] as int, bound as int),
            forall|m: int| 0 <= m < j && ready(facts@, *disk, on@, gated@, m, bound as int) ==> turned@.contains(m as usize),
        decreases gated@.len() - j,
    {
        let g = &gated[j];
        let ghost was = turned@;
        if !on[g.at] && opens(facts, disk, on, g, bound) {
            turned.push(j);
            proof {
                assert forall|m: int| 0 <= m < j + 1 && ready(facts@, *disk, on@, gated@, m, bound as int) implies turned@.contains(m as usize) by {
                    if m < j {
                        let w = choose|w: int| 0 <= w < was.len() && was[w] == m as usize;
                        assert(turned@[w] == was[w]);
                    } else {
                        assert(turned@[was.len() as int] == m as usize);
                    }
                }
            }
        }
        j += 1;
    }
    turned
}

/// `on` with the entry of every gated place `turned` names on.
fn turn_on(on: &mut Vec<bool>, gated: &Vec<Gated>, turned: &Vec<usize>)
    requires
        forall|j: int| 0 <= j < gated@.len() ==> (#[trigger] gated@[j]).at < old(on)@.len(),
        forall|t: int| 0 <= t < turned@.len() ==> (#[trigger] turned@[t]) < gated@.len(),
    ensures
        within(old(on)@, final(on)@),
        forall|i: int| 0 <= i < final(on)@.len() ==> (#[trigger] final(on)@[i] ==> old(on)@[i] || exists|u: int|
            0 <= u < turned@.len() && gated@[turned@[u] as int].at == i),
        forall|u: int| 0 <= u < turned@.len() ==> final(on)@[gated@[#[trigger] turned@[u] as int].at as int],
{
    let ghost before = on@;
    let mut t: usize = 0;
    while t < turned.len()
        invariant
            t <= turned@.len(),
            on@.len() == before.len(),
            forall|j: int| 0 <= j < gated@.len() ==> (#[trigger] gated@[j]).at < before.len(),
            forall|u: int| 0 <= u < turned@.len() ==> (#[trigger] turned@[u]) < gated@.len(),
            within(before, on@),
            forall|i: int| 0 <= i < on@.len() ==> (#[trigger] on@[i] ==> before[i] || exists|u: int|
                0 <= u < t && gated@[turned@[u] as int].at == i),
            forall|u: int| 0 <= u < t ==> on@[gated@[#[trigger] turned@[u] as int].at as int],
        decreases turned@.len() - t,
    {
        let at = gated[turned[t]].at;
        on.set(at, true);
        proof {
            assert forall|i: int| 0 <= i < on@.len() implies (#[trigger] on@[i] ==> before[i] || exists|u: int|
                0 <= u < t + 1 && gated@[turned@[u] as int].at == i) by {
                if i == at && on@[i] && !before[i] {
                    assert(gated@[turned@[t as int] as int].at == i);
                }
            }
        }
        t += 1;
    }
}

/// A round that turns on what it found keeps the settling's invariants.
proof fn lemma_round(
    facts: Seq<Fact>,
    disk: Disk,
    gated: Seq<Gated>,
    base: Seq<bool>,
    before: Seq<bool>,
    after: Seq<bool>,
    turned: Seq<usize>,
    bound: int,
)
    requires
        monotone(facts),
        before.len() == facts.len(),
        base.len() == facts.len(),
        gated_wf(gated, facts.len() as int),
        forall|i: int| 0 <= i < before.len() && !is_gated(gated, i) ==> before[i] == base[i],
        forall|j: int| 0 <= j < gated.len() && before[(#[trigger] gated[j]).at as int] ==> all_hold(facts, disk, before, gated[j], bound),
        forall|other: Seq<bool>| closed(facts, disk, gated, base, other, bound) ==> within(before, other),
        forall|t: int| 0 <= t < turned.len() ==> ready(facts, disk, before, gated, #[trigger] turned[t] as int, bound),
        within(before, after),
        forall|i: int| 0 <= i < after.len() ==> (#[trigger] after[i] ==> before[i] || exists|u: int|
            0 <= u < turned.len() && gated[turned[u] as int].at == i),
    ensures
        forall|i: int| 0 <= i < after.len() && !is_gated(gated, i) ==> after[i] == base[i],
        forall|j: int| 0 <= j < gated.len() && after[(#[trigger] gated[j]).at as int] ==> all_hold(facts, disk, after, gated[j], bound),
        forall|other: Seq<bool>| closed(facts, disk, gated, base, other, bound) ==> within(after, other),
{
    assert forall|i: int| 0 <= i < after.len() && !is_gated(gated, i) implies after[i] == base[i] by {
        if after[i] && !before[i] {
            let u = choose|u: int| 0 <= u < turned.len() && gated[turned[u] as int].at == i;
            assert(ready(facts, disk, before, gated, turned[u] as int, bound));
            assert(is_gated(gated, i));
        }
    }
    assert forall|j: int| 0 <= j < gated.len() && after[(#[trigger] gated[j]).at as int] implies all_hold(facts, disk, after, gated[j], bound) by {
        if before[gated[j].at as int] {
            lemma_all_hold_monotone(facts, disk, before, after, gated[j], bound);
        } else {
            let u = choose|u: int| 0 <= u < turned.len() && gated[turned[u] as int].at == gated[j].at;
            let m = turned[u] as int;
            assert(ready(facts, disk, before, gated, m, bound));
            assert(m == j);
            lemma_all_hold_monotone(facts, disk, before, after, gated[j], bound);
        }
    }
    assert forall|other: Seq<bool>| closed(facts, disk, gated, base, other, bound) implies within(after, other) by {
        assert(within(before, other));
        assert forall|i: int| 0 <= i < after.len() && after[i] implies other[i] by {
            if !before[i] {
                let u = choose|u: int| 0 <= u < turned.len() && gated[turned[u] as int].at == i;
                let m = turned[u] as int;
                assert(ready(facts, disk, before, gated, m, bound));
                lemma_all_hold_monotone(facts, disk, before, other, gated[m], bound);
            }
        }
    }
}

/// Whether `i` is gated.
fn gated_at(gated: &Vec<Gated>, i: usize) -> (r: bool)
    ensures
        r == is_gated(gated@, i as int),
{
    let mut j: usize = 0;
    while j < gated.len()
        invariant
            j <= gated@.len(),
            forall|m: int| 0 <= m < j ==> (#[trigger] gated@[m]).at != i,
        decreases gated@.len() - j,
    {
        if gated[j].at == i {
            return true;
        }
        j += 1;
    }
    false
}

/// The entries `exists` leaves on: the least assignment that keeps every other entry as `base`
/// says and turns on every gated entry whose paths will exist. It is the smallest fixpoint: a
/// gated entry is on exactly when its patterns hold, and any assignment closed under that rule
/// turns on at least as much.
pub fn settle_exists(facts: &Vec<Fact>, disk: &Disk, gated: &Vec<Gated>, base: &Vec<bool>, bound: usize) -> (on: Vec<bool>)
    requires
        monotone(facts@),
        base@.len() == facts@.len(),
        gated_wf(gated@, facts@.len() as int),
        forall|i: int| 0 <= i < facts@.len() ==> (#[trigger] facts@[i]).path@.len() <= bound,
    ensures
        on@.len() == facts@.len(),
        forall|i: int| 0 <= i < on@.len() && !is_gated(gated@, i) ==> on@[i] == base@[i],
        forall|j: int| 0 <= j < gated@.len() ==> (on@[(#[trigger] gated@[j]).at as int] <==> all_hold(
            facts@,
            *disk,
            on@,
            gated@[j],
            bound as int,
        )),
        forall|other: Seq<bool>| closed(facts@, *disk, gated@, base@, other, bound as int) ==> within(on@, other),
{
    let n = facts.len();
    let mut on: Vec<bool> = Vec::new();
    let mut i: usize = 0;
    while i < n
        invariant
            i <= n,
            n == facts@.len(),
            base@.len() == n,
            on@.len() == i,
            forall|k: int| 0 <= k < i ==> on@[k] == (base@[k] && !is_gated(gated@, k)),
        decreases n - i,
    {
        on.push(base[i] && !gated_at(gated, i));
        i += 1;
    }
    proof {
        assert forall|other: Seq<bool>| closed(facts@, *disk, gated@, base@, other, bound as int) implies within(on@, other) by {
            assert forall|k: int| 0 <= k < on@.len() && on@[k] implies other[k] by {
                assert(!is_gated(gated@, k));
            }
        }
        assert forall|j: int| 0 <= j < gated@.len() && on@[(#[trigger] gated@[j]).at as int] implies all_hold(
            facts@,
            *disk,
            on@,
            gated@[j],
            bound as int,
        ) by {
            assert(is_gated(gated@, gated@[j].at as int));
        }
    }
    loop
        invariant
            n == facts@.len(),
            monotone(facts@),
            base@.len() == n,
            gated_wf(gated@, n as int),
            forall|i: int| 0 <= i < n ==> (#[trigger] facts@[i]).path@.len() <= bound,
            on@.len() == n,
            forall|i: int| 0 <= i < n && !is_gated(gated@, i) ==> on@[i] == base@[i],
            forall|j: int| 0 <= j < gated@.len() && on@[(#[trigger] gated@[j]).at as int] ==> all_hold(
                facts@,
                *disk,
                on@,
                gated@[j],
                bound as int,
            ),
            forall|other: Seq<bool>| closed(facts@, *disk, gated@, base@, other, bound as int) ==> within(on@, other),
        decreases n - ons(on@),
    {
        proof {
            lemma_ons(on@, on@, 0);
        }
        let turned = round(facts, disk, gated, &on, bound);
        if turned.len() == 0 {
            proof {
                assert forall|j: int| 0 <= j < gated@.len() && all_hold(facts@, *disk, on@, #[trigger] gated@[j], bound as int)
                    implies on@[gated@[j].at as int] by {
                    if !on@[gated@[j].at as int] {
                        assert(ready(facts@, *disk, on@, gated@, j, bound as int));
                        assert(turned@.contains(j as usize));
                    }
                }
            }
            return on;
        }
        let ghost before = on@;
        proof {
            assert forall|t: int| 0 <= t < turned@.len() implies (#[trigger] turned@[t]) < gated@.len() by {
                assert(ready(facts@, *disk, before, gated@, turned@[t] as int, bound as int));
            }
        }
        turn_on(&mut on, gated, &turned);
        proof {
            lemma_round(facts@, *disk, gated@, base@, before, on@, turned@, bound as int);
            let m = turned@[0] as int;
            assert(ready(facts@, *disk, before, gated@, m, bound as int));
            lemma_ons(before, on@, gated@[m].at as int);
        }
    }
}

/// A scaffold id, as values.
pub open spec fn id_view(id: ScaffoldId) -> (Seq<char>, Seq<char>) {
    (id.profile@, id.group@)
}

/// Whether `ids` names `id`.
pub open spec fn lists_id(ids: Seq<ScaffoldId>, id: (Seq<char>, Seq<char>)) -> bool {
    exists|i: int| 0 <= i < ids.len() && id_view(#[trigger] ids[i]) == id
}

/// Whether `decided` decides `id`.
pub open spec fn covers(decided: Seq<(ScaffoldId, Scaffold)>, id: (Seq<char>, Seq<char>)) -> bool {
    exists|k: int| 0 <= k < decided.len() && id_view(#[trigger] decided[k].0) == id
}

/// Whether the disk has anything `p` names: the path, or a file the glob matches.
pub open spec fn disk_has(disk: Disk, p: Pattern) -> bool {
    match p {
        Pattern::Path(q) => on_disk(disk, q@),
        Pattern::Glob(w) => exists|j: int| 0 <= j < disk.files@.len() && glob_matches(w@, true, (#[trigger] disk.files@[j])@),
    }
}

/// One scaffold group of an active profile: its id, its sentinels, rendered, and whether any of
/// its files applies.
#[derive(Debug)]
pub struct Sentinels {
    /// The group.
    pub id: ScaffoldId,
    /// Paths or globs of which any, there before the run, means the target has its own.
    pub unless: Vec<Pattern>,
    /// Whether any of its files applies yet.
    pub applies: bool,
}

/// The record `recorded` holds for `id`, if any: its decision and files.
pub open spec fn recorded_of(recorded: Seq<(ScaffoldId, Scaffold)>, id: (Seq<char>, Seq<char>)) -> Option<(Scaffolded, Seq<(RelPath, RelPath)>)> {
    first_set(recorded.map_values(|r: (ScaffoldId, Scaffold)| if id_view(r.0) == id {
        Some((r.1.decision, r.1.files@))
    } else {
        None
    }))
}

/// What is decided of the group `s`: written again when asked; as recorded; left undecided
/// while none of its files applies, so a sentinel that appears before one does still counts;
/// else found when a sentinel is on disk, written when none is.
pub open spec fn decision_of(
    s: Sentinels,
    recorded: Seq<(ScaffoldId, Scaffold)>,
    rescaffolds: Seq<ScaffoldId>,
    disk: Disk,
) -> Option<(Scaffolded, Seq<(RelPath, RelPath)>)> {
    if lists_id(rescaffolds, id_view(s.id)) {
        Some((Scaffolded::Written, Seq::empty()))
    } else {
        match recorded_of(recorded, id_view(s.id)) {
            Some(r) => Some(r),
            None => if !s.applies {
                None
            } else if exists|k: int| 0 <= k < s.unless@.len() && disk_has(disk, #[trigger] s.unless@[k]) {
                Some((Scaffolded::Found, Seq::empty()))
            } else {
                Some((Scaffolded::Written, Seq::empty()))
            },
        }
    }
}

/// Every decided group of `groups`, in order, with its decision and files.
pub open spec fn decided_of(
    groups: Seq<Sentinels>,
    recorded: Seq<(ScaffoldId, Scaffold)>,
    rescaffolds: Seq<ScaffoldId>,
    disk: Disk,
) -> Seq<((Seq<char>, Seq<char>), Scaffolded, Seq<(RelPath, RelPath)>)>
    decreases groups.len(),
{
    if groups.len() == 0 {
        Seq::empty()
    } else {
        let d = decided_of(groups.drop_last(), recorded, rescaffolds, disk);
        match decision_of(groups.last(), recorded, rescaffolds, disk) {
            Some((decision, files)) => d.push((id_view(groups.last().id), decision, files)),
            None => d,
        }
    }
}

/// Decided scaffolds, as values.
pub open spec fn scaffolds_view(v: Seq<(ScaffoldId, Scaffold)>) -> Seq<((Seq<char>, Seq<char>), Scaffolded, Seq<(RelPath, RelPath)>)> {
    v.map_values(|d: (ScaffoldId, Scaffold)| (id_view(d.0), d.1.decision, d.1.files@))
}

/// Whether the disk has anything `p` names.
fn has_on_disk(disk: &Disk, p: &Pattern) -> (r: bool)
    requires
        pattern_wf(*p),
    ensures
        r == disk_has(*disk, *p),
{
    match p {
        Pattern::Path(q) => holds_path(&disk.there, q) || holds_path(&disk.files, q),
        Pattern::Glob(w) => {
            let mut j: usize = 0;
            while j < disk.files.len()
                invariant
                    j <= disk.files@.len(),
                    glob_fault(w@, true) is None,
                    *p == Pattern::Glob(*w),
                    forall|k: int| 0 <= k < j ==> !glob_matches(w@, true, (#[trigger] disk.files@[k])@),
                decreases disk.files@.len() - j,
            {
                if match_glob(w.as_str(), true, disk.files[j].as_str()) {
                    return true;
                }
                j += 1;
            }
            false
        },
    }
}

/// Whether `ids` names `id`.
fn lists(ids: &Vec<ScaffoldId>, id: &ScaffoldId) -> (r: bool)
    ensures
        r == lists_id(ids@, id_view(*id)),
{
    let mut i: usize = 0;
    while i < ids.len()
        invariant
            i <= ids@.len(),
            forall|k: int| 0 <= k < i ==> id_view(#[trigger] ids@[k]) != id_view(*id),
        decreases ids@.len() - i,
    {
        if ids[i].same(id) {
            return true;
        }
        i += 1;
    }
    false
}

/// The record `recorded` holds for `id`.
fn recorded_for(recorded: &Vec<(ScaffoldId, Scaffold)>, id: &ScaffoldId) -> (r: Option<Scaffold>)
    ensures
        match r {
            Some(sc) => recorded_of(recorded@, id_view(*id)) == Some((sc.decision, sc.files@)),
            None => recorded_of(recorded@, id_view(*id)) is None,
        },
{
    let ghost all = recorded@.map_values(|r: (ScaffoldId, Scaffold)| if id_view(r.0) == id_view(*id) {
        Some((r.1.decision, r.1.files@))
    } else {
        None
    });
    let mut i: usize = 0;
    while i < recorded.len()
        invariant
            i <= recorded@.len(),
            all == recorded@.map_values(|r: (ScaffoldId, Scaffold)| if id_view(r.0) == id_view(*id) {
                Some((r.1.decision, r.1.files@))
            } else {
                None
            }),
            first_set(all.take(i as int)) is None,
        decreases recorded@.len() - i,
    {
        proof {
            crate::text::lemma_first_set_step(all, i as int);
        }
        if recorded[i].0.same(id) {
            proof {
                crate::text::lemma_first_set_prefix(all, i + 1);
            }
            return Some(recorded[i].1.clone());
        }
        i += 1;
    }
    assert(all.take(recorded@.len() as int) == all);
    None
}

/// What is decided of the group `s`.
fn decision(s: &Sentinels, recorded: &Vec<(ScaffoldId, Scaffold)>, rescaffolds: &Vec<ScaffoldId>, disk: &Disk) -> (r: Option<Scaffold>)
    requires
        forall|k: int| 0 <= k < s.unless@.len() ==> pattern_wf(#[trigger] s.unless@[k]),
    ensures
        match r {
            Some(sc) => decision_of(*s, recorded@, rescaffolds@, *disk) == Some((sc.decision, sc.files@)),
            None => decision_of(*s, recorded@, rescaffolds@, *disk) is None,
        },
{
    if lists(rescaffolds, &s.id) {
        let files: Vec<(RelPath, RelPath)> = Vec::new();
        assert(files@ =~= Seq::empty());
        return Some(Scaffold { decision: Scaffolded::Written, files });
    }
    if let Some(sc) = recorded_for(recorded, &s.id) {
        return Some(sc);
    }
    if !s.applies {
        return None;
    }
    let mut found = false;
    let mut k: usize = 0;
    while k < s.unless.len()
        invariant
            k <= s.unless@.len(),
            forall|m: int| 0 <= m < s.unless@.len() ==> pattern_wf(#[trigger] s.unless@[m]),
            found == exists|m: int| 0 <= m < k && disk_has(*disk, #[trigger] s.unless@[m]),
        decreases s.unless@.len() - k,
    {
        if has_on_disk(disk, &s.unless[k]) {
            found = true;
        }
        k += 1;
    }
    let files: Vec<(RelPath, RelPath)> = Vec::new();
    assert(files@ =~= Seq::empty());
    Some(Scaffold { decision: if found { Scaffolded::Found } else { Scaffolded::Written }, files })
}

/// Every scaffold's decision, in the order of `groups`: recorded, asked to be written again, or
/// decided now against the disk.
///
/// Fails with [`TargetError::NoSuchScaffold`], naming the first scaffold to write again that is
/// no active profile's, and every active one.
pub fn decide(groups: &Vec<Sentinels>, recorded: &Vec<(ScaffoldId, Scaffold)>, rescaffolds: &Vec<ScaffoldId>, disk: &Disk) -> (r: Result<Vec<(ScaffoldId, Scaffold)>, TargetError>)
    requires
        forall|g: int, k: int| 0 <= g < groups@.len() && 0 <= k < groups@[g].unless@.len() ==> pattern_wf(
            #[trigger] groups@[g].unless@[k]),
    ensures
        match r {
            Ok(decided) => scaffolds_view(decided@) == decided_of(groups@, recorded@, rescaffolds@, *disk)
                && forall|i: int| 0 <= i < rescaffolds@.len() ==> covers(decided@, id_view(#[trigger] rescaffolds@[i])),
            Err(TargetError::NoSuchScaffold { name, scaffolds }) => exists|i: int|
                0 <= i < rescaffolds@.len() && name@ == (#[trigger] rescaffolds@[i]).profile@ + "/"@ + rescaffolds@[i].group@
                    && forall|k: int| 0 <= k < decided_of(groups@, recorded@, rescaffolds@, *disk).len() ==> (
                    #[trigger] decided_of(groups@, recorded@, rescaffolds@, *disk)[k]).0 != id_view(rescaffolds@[i]),
            Err(_) => false,
        },
{
    let mut decided: Vec<(ScaffoldId, Scaffold)> = Vec::new();
    let mut known: Vec<String> = Vec::new();
    let mut g: usize = 0;
    while g < groups.len()
        invariant
            g <= groups@.len(),
            forall|a: int, k: int| 0 <= a < groups@.len() && 0 <= k < groups@[a].unless@.len() ==> pattern_wf(
                #[trigger] groups@[a].unless@[k]),
            scaffolds_view(decided@) == decided_of(groups@.take(g as int), recorded@, rescaffolds@, *disk),
        decreases groups@.len() - g,
    {
        let s = &groups[g];
        known.push(s.id.to_string());
        proof {
            assert(groups@.take(g + 1).drop_last() == groups@.take(g as int));
            assert(groups@.take(g + 1).last() == groups@[g as int]);
        }
        let ghost before = scaffolds_view(decided@);
        match decision(s, recorded, rescaffolds, disk) {
            Some(sc) => {
                decided.push((s.id.clone(), sc));
                assert(scaffolds_view(decided@) =~= before.push((id_view(groups@[g as int].id), decided@.last().1.decision, decided@.last().1.files@)));
            },
            None => {},
        }
        g += 1;
    }
    assert(groups@.take(groups@.len() as int) == groups@);
    let mut i: usize = 0;
    while i < rescaffolds.len()
        invariant
            i <= rescaffolds@.len(),
            scaffolds_view(decided@) == decided_of(groups@, recorded@, rescaffolds@, *disk),
            forall|m: int| 0 <= m < i ==> covers(decided@, id_view(#[trigger] rescaffolds@[m])),
        decreases rescaffolds@.len() - i,
    {
        let mut k: usize = 0;
        let mut seen = false;
        while k < decided.len()
            invariant
                k <= decided@.len(),
                i < rescaffolds@.len(),
                scaffolds_view(decided@) == decided_of(groups@, recorded@, rescaffolds@, *disk),
                forall|m: int| 0 <= m < i ==> covers(decided@, id_view(#[trigger] rescaffolds@[m])),
                seen == exists|m: int| 0 <= m < k && id_view(#[trigger] decided@[m].0) == id_view(rescaffolds@[i as int]),
            decreases decided@.len() - k,
        {
            if decided[k].0.same(&rescaffolds[i]) {
                seen = true;
            }
            k += 1;
        }
        if !seen {
            proof {
                assert forall|k: int| 0 <= k < decided_of(groups@, recorded@, rescaffolds@, *disk).len() implies (
                    #[trigger] decided_of(groups@, recorded@, rescaffolds@, *disk)[k]).0 != id_view(rescaffolds@[i as int]) by {
                    assert(scaffolds_view(decided@)[k].0 == id_view(decided@[k].0));
                }
            }
            return Err(TargetError::NoSuchScaffold { name: rescaffolds[i].to_string(), scaffolds: known });
        }
        i += 1;
    }
    Ok(decided)
}

/// The file `files` records at `written`, its first.
pub open spec fn file_at(files: Seq<(RelPath, RelPath)>, written: Seq<char>) -> Option<Seq<char>> {
    first_set(files.map_values(|f: (RelPath, RelPath)| if f.0@ == written {
        Some(f.1@)
    } else {
        None
    }))
}

/// The decision `scaffolds` holds for `id`, its first.
pub open spec fn decided_for(scaffolds: Seq<(ScaffoldId, Scaffold)>, id: (Seq<char>, Seq<char>)) -> Option<(Scaffolded, Seq<(RelPath, RelPath)>)> {
    recorded_of(scaffolds, id)
}

/// Why a scaffold turns off the entry at `path`, written `written` in the profile: its group
/// found the target's own; or wrote it elsewhere, before an answer moved its path.
pub open spec fn scaffold_why(
    scaffolds: Seq<(ScaffoldId, Scaffold)>,
    id: (Seq<char>, Seq<char>),
    written: Seq<char>,
    path: Seq<char>,
) -> Option<Why> {
    match decided_for(scaffolds, id) {
        None => None,
        Some((Scaffolded::Found, _)) => Some(Why::Found(id.0, id.1)),
        Some((Scaffolded::Written, files)) => match file_at(files, written) {
            Some(at) => if at != path {
                Some(Why::Moved(id.0, id.1, at))
            } else {
                None
            },
            None => None,
        },
    }
}

/// The file `files` records at `written`.
fn file_for(files: &Vec<(RelPath, RelPath)>, written: &RelPath) -> (r: Option<RelPath>)
    ensures
        match r {
            Some(p) => file_at(files@, written@) == Some(p@),
            None => file_at(files@, written@) is None,
        },
{
    let ghost all = files@.map_values(|f: (RelPath, RelPath)| if f.0@ == written@ {
        Some(f.1@)
    } else {
        None
    });
    let mut i: usize = 0;
    while i < files.len()
        invariant
            i <= files@.len(),
            all == files@.map_values(|f: (RelPath, RelPath)| if f.0@ == written@ {
                Some(f.1@)
            } else {
                None
            }),
            first_set(all.take(i as int)) is None,
        decreases files@.len() - i,
    {
        proof {
            crate::text::lemma_first_set_step(all, i as int);
        }
        if files[i].0.same(written) {
            proof {
                crate::text::lemma_first_set_prefix(all, i + 1);
            }
            return Some(files[i].1.clone());
        }
        i += 1;
    }
    assert(all.take(files@.len() as int) == all);
    None
}

/// Why a scaffold turns off the entry at `path`, written `written` in the profile.
fn scaffold_reason(scaffolds: &Vec<(ScaffoldId, Scaffold)>, id: &ScaffoldId, written: &RelPath, path: &RelPath) -> (r: Option<Reason>)
    ensures
        match r {
            Some(x) => scaffold_why(scaffolds@, id_view(*id), written@, path@) == Some(x@),
            None => scaffold_why(scaffolds@, id_view(*id), written@, path@) is None,
        },
{
    match recorded_for(scaffolds, id) {
        None => None,
        Some(sc) => match sc.decision {
            Scaffolded::Found => Some(Reason::Found(id.clone())),
            Scaffolded::Written => match file_for(&sc.files, written) {
                Some(at) => if at.same(path) {
                    None
                } else {
                    Some(Reason::Moved { scaffold: id.clone(), path: at })
                },
                None => None,
            },
        },
    }
}

/// What an entry's gates ask beyond `features`, `profiles` and `vars`: whether a layer provides
/// it, its scaffold with its path as the profile writes it, and its `exists`.
#[derive(Debug)]
pub struct EntryGate {
    /// Whether a layer provides the entry.
    pub provided: bool,
    /// Its scaffold, and its path as the profile writes it.
    pub scaffold: Option<(ScaffoldId, RelPath)>,
    /// Its `when.exists`, rendered.
    pub exists: Vec<Pattern>,
}

/// Why a scaffold turns off entry `e` with gates `g`.
pub open spec fn first_why(scaffolds: Seq<(ScaffoldId, Scaffold)>, e: Entry, g: EntryGate) -> Option<Why> {
    if !g.provided {
        None
    } else {
        match g.scaffold {
            None => None,
            Some((id, written)) => scaffold_why(scaffolds, id_view(id), written@, e.path@),
        }
    }
}

/// Whether entry `e` with gates `g` is written again: its scaffold is asked to be, and turns it
/// not off.
pub open spec fn rewritten(scaffolds: Seq<(ScaffoldId, Scaffold)>, rescaffolds: Seq<ScaffoldId>, e: Entry, g: EntryGate) -> bool {
    g.provided && first_why(scaffolds, e, g) is None && match g.scaffold {
        Some((id, _)) => lists_id(rescaffolds, id_view(id)),
        None => false,
    }
}

/// `e` without its record, when `clear`.
pub open spec fn cleared(e: Entry, clear: bool) -> Entry {
    if clear {
        Entry { record: None, recorded: None, ..e }
    } else {
        e
    }
}

/// The fact of entry `e`: its path, and whether it keeps its file applying and not.
pub open spec fn fact_of(e: Entry) -> (Seq<char>, bool, bool) {
    (e.path@, keeps_of(e, true), keeps_of(e, false))
}

/// Facts, as values.
pub open spec fn facts_view(facts: Seq<Fact>) -> Seq<(Seq<char>, bool, bool)> {
    facts.map_values(|f: Fact| (f.path@, f.kept_on, f.kept_off))
}

/// The facts of `entries`, as [`Fact`]s.
pub open spec fn facts_spec(entries: Seq<Entry>) -> Seq<Fact> {
    Seq::new(entries.len(), |k: int| Fact { path: entries[k].path, kept_on: keeps_of(entries[k], true), kept_off: keeps_of(entries[k], false) })
}

/// The facts of `entries`.
fn facts_of(entries: &Vec<Entry>) -> (facts: Vec<Fact>)
    ensures
        facts_view(facts@) == entries@.map_values(|e: Entry| fact_of(e)),
        facts@ == facts_spec(entries@),
        monotone(facts@),
        forall|i: int| 0 <= i < facts@.len() ==> (#[trigger] facts@[i]).path@ == entries@[i].path@,
{
    let mut facts: Vec<Fact> = Vec::new();
    let mut i: usize = 0;
    while i < entries.len()
        invariant
            i <= entries@.len(),
            facts_view(facts@) == entries@.take(i as int).map_values(|e: Entry| fact_of(e)),
            facts@.len() == i,
            forall|k: int| 0 <= k < i ==> facts@[k] == (#[trigger] facts_spec(entries@)[k]),
            monotone(facts@),
            forall|k: int| 0 <= k < facts@.len() ==> (#[trigger] facts@[k]).path@ == entries@[k].path@,
        decreases entries@.len() - i,
    {
        let e = &entries[i];
        proof {
            crate::plan::applying_never_takes_a_file_away(*e);
        }
        let ghost before = facts_view(facts@);
        facts.push(Fact { path: e.path.clone(), kept_on: e.keeps(true), kept_off: e.keeps(false) });
        i += 1;
        assert(entries@.take(i as int) == entries@.take(i - 1).push(entries@[i - 1]));
        assert(facts_view(facts@) =~= before.push(fact_of(entries@[i - 1])));
    }
    assert(entries@.take(entries@.len() as int) == entries@);
    assert(facts@ =~= facts_spec(entries@));
    facts
}

/// The length of the longest path of `entries`; 0 when there is none.
pub open spec fn longest_of(entries: Seq<Entry>) -> int
    decreases entries.len(),
{
    if entries.len() == 0 {
        0
    } else {
        let rest = longest_of(entries.drop_last());
        if entries.last().path@.len() > rest {
            entries.last().path@.len() as int
        } else {
            rest
        }
    }
}

/// The length of the longest path of `entries`.
fn longest(entries: &Vec<Entry>) -> (bound: usize)
    ensures
        bound == longest_of(entries@),
        forall|i: int| 0 <= i < entries@.len() ==> (#[trigger] entries@[i]).path@.len() <= bound,
{
    let mut bound: usize = 0;
    let mut i: usize = 0;
    while i < entries.len()
        invariant
            i <= entries@.len(),
            bound == longest_of(entries@.take(i as int)),
            forall|k: int| 0 <= k < i ==> (#[trigger] entries@[k]).path@.len() <= bound,
        decreases entries@.len() - i,
    {
        let n = chars_of(entries[i].path.as_str()).len();
        assert(entries@.take(i + 1).drop_last() == entries@.take(i as int));
        if n > bound {
            bound = n;
        }
        i += 1;
    }
    assert(entries@.take(entries@.len() as int) == entries@);
    bound
}

/// `entries`, each without its record where `clear` says.
fn clear_records(entries: &mut Vec<Entry>, clear: &Vec<bool>)
    requires
        clear@.len() == old(entries)@.len(),
    ensures
        final(entries)@.len() == old(entries)@.len(),
        forall|i: int| 0 <= i < final(entries)@.len() ==> final(entries)@[i] == cleared(old(entries)@[i], clear@[i]),
{
    let ghost before = entries@;
    let mut taken: Vec<Entry> = Vec::new();
    std::mem::swap(entries, &mut taken);
    let n = taken.len();
    let mut i: usize = 0;
    while i < n
        invariant
            i <= n,
            n == before.len(),
            clear@.len() == n,
            taken@ == before.skip(i as int),
            entries@.len() == i,
            forall|k: int| 0 <= k < i ==> entries@[k] == cleared(before[k], clear@[k]),
        decreases n - i,
    {
        let mut e = taken.remove(0);
        assert(e == before[i as int]);
        if clear[i] {
            e.record = None;
            e.recorded = None;
        }
        entries.push(e);
        i += 1;
        assert(taken@ =~= before.skip(i as int));
    }
}

/// Whether every one of `patterns` holds for the entry at `at`, each entry applying as `on` says.
pub open spec fn all_hold_at(facts: Seq<Fact>, disk: Disk, on: Seq<bool>, at: int, patterns: Seq<Pattern>, bound: int) -> bool {
    forall|k: int| 0 <= k < patterns.len() ==> holds(facts, disk, on, at, #[trigger] patterns[k], bound)
}

/// [`all_hold`] reads only the entry and its patterns.
proof fn lemma_all_hold_at(facts: Seq<Fact>, disk: Disk, on: Seq<bool>, g: Gated, bound: int)
    ensures
        all_hold(facts, disk, on, g, bound) == all_hold_at(facts, disk, on, g.at as int, g.patterns@, bound),
{
    reveal(all_hold);
}

/// Whether `exists` gates entry `e` with gates `g`: a layer provides it, no scaffold turns it
/// off, and it names a path or a glob.
pub open spec fn gated_by(scaffolds: Seq<(ScaffoldId, Scaffold)>, e: Entry, g: EntryGate) -> bool {
    g.provided && first_why(scaffolds, e, g) is None && g.exists@.len() > 0
}

/// What settling decided: which entries apply, why each that does not is off, and how each
/// `exists` came out.
#[derive(Debug)]
pub struct Settled {
    /// Whether each entry, as given, applies.
    pub on: Vec<bool>,
    /// Why each entry, as given, is off; `None` for one that applies.
    pub off: Vec<Option<Reason>>,
    /// Every slot its gates turned off, whether or not it was recorded, with why.
    pub gated: Vec<(Slot, Reason)>,
    /// Each path and glob of each slot `exists` gates, and whether it will exist.
    pub exists: Vec<(Slot, Vec<(String, bool)>)>,
}

/// The first of `patterns` that does not hold for the entry at `at`, as written.
pub open spec fn first_absent(facts: Seq<Fact>, disk: Disk, on: Seq<bool>, at: int, patterns: Seq<Pattern>, bound: int) -> Option<Seq<char>> {
    first_set(patterns.map_values(|p: Pattern| if holds(facts, disk, on, at, p, bound) {
        None
    } else {
        Some(pattern_text(p))
    }))
}

/// An entry's slot, as values.
pub open spec fn slot_of(e: Entry) -> (Seq<char>, Option<Seq<char>>) {
    (e.path@, match e.part {
        Some(part) => Some(part.owner@),
        None => None,
    })
}

/// A slot, as values.
pub open spec fn slot_view(s: Slot) -> (Seq<char>, Option<Seq<char>>) {
    (s.path@, match s.part {
        Some(p) => Some(p@),
        None => None,
    })
}

/// The slot of `e`.
fn slot(e: &Entry) -> (s: Slot)
    ensures
        slot_view(s) == slot_of(*e),
{
    Slot {
        path: e.path.clone(),
        part: match &e.part {
            Some(part) => Some(part.owner.clone()),
            None => None,
        },
    }
}

/// Entries `e` released where `off` gives a reason: kept as they are where it gives none; kept
/// without what a layer wants and with the reason where it gives one and they have a record;
/// dropped otherwise.
pub open spec fn released_entries(es: Seq<Entry>, off: Seq<Option<Reason>>) -> Seq<(Seq<char>, Option<Seq<char>>, bool, Option<Why>)>
    decreases es.len(),
{
    if es.len() == 0 || off.len() != es.len() {
        Seq::empty()
    } else {
        let rest = released_entries(es.drop_last(), off.drop_last());
        let e = es.last();
        match off.last() {
            None => rest.push(entry_shown(e)),
            Some(r) => if e.record is Some {
                rest.push((slot_of(e).0, slot_of(e).1, false, Some(r@)))
            } else {
                rest
            },
        }
    }
}

/// Where the entries of `es` that stay are: each that `off` leaves on, and each it turns off that
/// has a record, which keeps it to be released.
pub open spec fn staying(es: Seq<Entry>, off: Seq<Option<Reason>>) -> Seq<int>
    decreases es.len(),
{
    if es.len() == 0 || off.len() != es.len() {
        Seq::empty()
    } else {
        let rest = staying(es.drop_last(), off.drop_last());
        if off.last() is None || es.last().record is Some {
            rest.push(es.len() - 1)
        } else {
            rest
        }
    }
}

/// Whether `x` is `e` released for `r`: no layer wants it, `r` is why, and all else is as it was.
pub open spec fn released_as(x: Entry, e: Entry, r: Reason) -> bool {
    &&& x.gate matches Some(g) && g@ == r@
    &&& x == (Entry { want: None, gate: x.gate, ..e })
}

/// Whether `out` holds the entries of `es` that stay, in order: each left on as it is, each
/// turned off released for its reason.
pub open spec fn stays_as(out: Seq<Entry>, es: Seq<Entry>, off: Seq<Option<Reason>>) -> bool {
    let kept = staying(es, off);
    &&& out.len() == kept.len()
    &&& forall|k: int| 0 <= k < out.len() ==> match off[#[trigger] kept[k]] {
        None => out[k] == es[kept[k]],
        Some(r) => released_as(out[k], es[kept[k]], r),
    }
}

/// Where the staying entries are lies within `es`, in order.
proof fn lemma_staying(es: Seq<Entry>, off: Seq<Option<Reason>>)
    ensures
        forall|k: int| 0 <= k < staying(es, off).len() ==> 0 <= #[trigger] staying(es, off)[k] < es.len(),
    decreases es.len(),
{
    if es.len() > 0 && off.len() == es.len() {
        lemma_staying(es.drop_last(), off.drop_last());
        let rest = staying(es.drop_last(), off.drop_last());
        assert forall|k: int| 0 <= k < staying(es, off).len() implies 0 <= #[trigger] staying(es, off)[k] < es.len() by {
            if k < rest.len() {
                assert(staying(es, off)[k] == rest[k]);
            }
        }
    }
}

/// An entry as `released_entries` shows it: its slot, whether a layer wants it, and its gate.
pub open spec fn entry_shown(e: Entry) -> (Seq<char>, Option<Seq<char>>, bool, Option<Why>) {
    (slot_of(e).0, slot_of(e).1, e.want is Some, match e.gate {
        Some(r) => Some(r@),
        None => None,
    })
}

/// Where `written` first occurs among the written paths of `files`.
pub open spec fn key_at(files: Seq<(Seq<char>, Seq<char>)>, written: Seq<char>) -> Option<int> {
    if exists|k: int| 0 <= k < files.len() && (#[trigger] files[k]).0 == written {
        Some(choose|k: int| 0 <= k < files.len() && (#[trigger] files[k]).0 == written && forall|j: int| 0 <= j < k ==> files[j].0 != written)
    } else {
        None
    }
}

/// `files` with `written` at `path`: replaced where it has `written`, else added.
pub open spec fn put_file(files: Seq<(Seq<char>, Seq<char>)>, written: Seq<char>, path: Seq<char>) -> Seq<(Seq<char>, Seq<char>)> {
    match key_at(files, written) {
        Some(k) => files.update(k, (written, path)),
        None => files.push((written, path)),
    }
}

/// `entries` as they will be: without their record where their scaffold is written again.
pub open spec fn now_of(
    given: Seq<Entry>,
    decided: Seq<(ScaffoldId, Scaffold)>,
    rescaffolds: Seq<ScaffoldId>,
    gates: Seq<EntryGate>,
) -> Seq<Entry> {
    Seq::new(given.len(), |i: int| cleared(given[i], rewritten(decided, rescaffolds, given[i], gates[i])))
}

/// A copy of `patterns`.
fn copy_patterns(patterns: &Vec<Pattern>) -> (out: Vec<Pattern>)
    ensures
        out@ == patterns@,
{
    let mut out: Vec<Pattern> = Vec::new();
    let mut i: usize = 0;
    while i < patterns.len()
        invariant
            i <= patterns@.len(),
            out@ == patterns@.take(i as int),
        decreases patterns@.len() - i,
    {
        out.push(patterns[i].clone());
        i += 1;
        assert(patterns@.take(i as int) == patterns@.take(i - 1).push(patterns@[i - 1]));
    }
    assert(patterns@.take(patterns@.len() as int) == patterns@);
    out
}

/// The files of `files`, as values.
pub open spec fn files_view(files: Seq<(RelPath, RelPath)>) -> Seq<(Seq<char>, Seq<char>)> {
    files.map_values(|f: (RelPath, RelPath)| (f.0@, f.1@))
}

/// Where `written` first occurs among the written paths of `files`.
fn key_index(files: &Vec<(RelPath, RelPath)>, written: &RelPath) -> (r: Option<usize>)
    ensures
        match r {
            Some(i) => i < files@.len() && key_at(files_view(files@), written@) == Some(i as int) && files@[i as int].0@ == written@,
            None => key_at(files_view(files@), written@) is None,
        },
{
    let ghost view = files_view(files@);
    let mut i: usize = 0;
    while i < files.len()
        invariant
            i <= files@.len(),
            view == files_view(files@),
            forall|k: int| 0 <= k < i ==> (#[trigger] files@[k]).0@ != written@,
        decreases files@.len() - i,
    {
        if files[i].0.same(written) {
            proof {
                assert(view[i as int].0 == written@);
                let k = choose|k: int| 0 <= k < view.len() && (#[trigger] view[k]).0 == written@ && forall|j: int| 0 <= j < k ==> view[j].0 != written@;
                if k < i {
                    assert(files@[k].0@ != written@);
                } else if k > i {
                    assert(view[i as int].0 != written@);
                }
            }
            return Some(i);
        }
        i += 1;
    }
    proof {
        if exists|k: int| 0 <= k < view.len() && (#[trigger] view[k]).0 == written@ {
            let k = choose|k: int| 0 <= k < view.len() && (#[trigger] view[k]).0 == written@;
            assert(files@[k].0@ != written@);
        }
    }
    None
}

/// `files` with `written` at `path`.
fn put_file_in(files: &mut Vec<(RelPath, RelPath)>, written: &RelPath, path: &RelPath)
    ensures
        files_view(final(files)@) == put_file(files_view(old(files)@), written@, path@),
{
    let ghost before = files_view(files@);
    match key_index(files, written) {
        Some(i) => {
            let (w, _) = files.remove(i);
            files.insert(i, (w, path.clone()));
            assert(files_view(files@) =~= before.update(i as int, (written@, path@)));
        },
        None => {
            files.push((written.clone(), path.clone()));
            assert(files_view(files@) =~= before.push((written@, path@)));
        },
    }
}

/// Scaffolds, as values: each one's id, decision and files.
pub open spec fn scaffold_records(s: Seq<(ScaffoldId, Scaffold)>) -> Seq<((Seq<char>, Seq<char>), Scaffolded, Seq<(Seq<char>, Seq<char>)>)> {
    s.map_values(|x: (ScaffoldId, Scaffold)| (id_view(x.0), x.1.decision, files_view(x.1.files@)))
}

/// Where the scaffold `id` first is among `s`.
pub open spec fn scaffold_at(s: Seq<((Seq<char>, Seq<char>), Scaffolded, Seq<(Seq<char>, Seq<char>)>)>, id: (Seq<char>, Seq<char>)) -> Option<int> {
    if exists|k: int| 0 <= k < s.len() && (#[trigger] s[k]).0 == id {
        Some(choose|k: int| 0 <= k < s.len() && (#[trigger] s[k]).0 == id && forall|j: int| 0 <= j < k ==> (#[trigger] s[j]).0 != id)
    } else {
        None
    }
}

/// Where the scaffold `id` first is among `s`, from its index and those before it.
proof fn lemma_scaffold_at(s: Seq<((Seq<char>, Seq<char>), Scaffolded, Seq<(Seq<char>, Seq<char>)>)>, id: (Seq<char>, Seq<char>), at: int)
    requires
        0 <= at <= s.len(),
        at < s.len() ==> s[at].0 == id,
        forall|j: int| 0 <= j < at ==> (#[trigger] s[j]).0 != id,
    ensures
        scaffold_at(s, id) == if at < s.len() {
            Some(at)
        } else {
            None::<int>
        },
{
    if at < s.len() {
        assert(0 <= at < s.len() && s[at].0 == id && forall|j: int| 0 <= j < at ==> (#[trigger] s[j]).0 != id);
        let k = choose|k: int| 0 <= k < s.len() && (#[trigger] s[k]).0 == id && forall|j: int| 0 <= j < k ==> (#[trigger] s[j]).0 != id;
        if k < at {
            assert(s[k].0 != id);
        } else if k > at {
            assert(s[at].0 != id);
        }
    }
}

/// `s` with the file written `written` of the scaffold `id` recorded at `path`, where `s` has
/// that scaffold; else `s` as it is.
pub open spec fn put_scaffold(
    s: Seq<((Seq<char>, Seq<char>), Scaffolded, Seq<(Seq<char>, Seq<char>)>)>,
    id: (Seq<char>, Seq<char>),
    written: Seq<char>,
    path: Seq<char>,
) -> Seq<((Seq<char>, Seq<char>), Scaffolded, Seq<(Seq<char>, Seq<char>)>)> {
    match scaffold_at(s, id) {
        Some(k) => s.update(k, (s[k].0, s[k].1, put_file(s[k].2, written, path))),
        None => s,
    }
}

/// `s` with the files of the first `n` entries recorded, in order: each one that is on, that a
/// layer provides and that a scaffold holds, at its path.
pub open spec fn recorded(
    s: Seq<((Seq<char>, Seq<char>), Scaffolded, Seq<(Seq<char>, Seq<char>)>)>,
    gates: Seq<EntryGate>,
    entries: Seq<Entry>,
    on: Seq<bool>,
    n: int,
) -> Seq<((Seq<char>, Seq<char>), Scaffolded, Seq<(Seq<char>, Seq<char>)>)>
    decreases n,
{
    if n <= 0 {
        s
    } else {
        let before = recorded(s, gates, entries, on, n - 1);
        let i = n - 1;
        if on[i] && gates[i].provided && gates[i].scaffold is Some {
            put_scaffold(before, id_view((gates[i].scaffold->0).0), (gates[i].scaffold->0).1@, entries[i].path@)
        } else {
            before
        }
    }
}

/// Where `id` first is in `scaffolds`.
fn scaffold_index(scaffolds: &Vec<(ScaffoldId, Scaffold)>, id: &ScaffoldId) -> (r: Option<usize>)
    ensures
        match r {
            Some(k) => k < scaffolds@.len() && scaffold_at(scaffold_records(scaffolds@), id_view(*id)) == Some(k as int),
            None => scaffold_at(scaffold_records(scaffolds@), id_view(*id)) is None,
        },
{
    let ghost view = scaffold_records(scaffolds@);
    let mut k: usize = 0;
    while k < scaffolds.len()
        invariant
            k <= scaffolds@.len(),
            view == scaffold_records(scaffolds@),
            forall|j: int| 0 <= j < k ==> (#[trigger] view[j]).0 != id_view(*id),
        decreases scaffolds@.len() - k,
    {
        if scaffolds[k].0.same(id) {
            proof {
                lemma_scaffold_at(view, id_view(*id), k as int);
            }
            return Some(k);
        }
        assert(view[k as int].0 != id_view(*id));
        k += 1;
    }
    proof {
        lemma_scaffold_at(view, id_view(*id), k as int);
    }
    None
}

/// `scaffolds` with the file of `id` written `written` recorded at `path`, when it is decided.
fn put_scaffold_file(scaffolds: &mut Vec<(ScaffoldId, Scaffold)>, id: &ScaffoldId, written: &RelPath, path: &RelPath)
    ensures
        final(scaffolds)@.len() == old(scaffolds)@.len(),
        forall|k: int| 0 <= k < final(scaffolds)@.len() ==> id_view((#[trigger] final(scaffolds)@[k]).0) == id_view(old(scaffolds)@[k].0)
            && final(scaffolds)@[k].1.decision == old(scaffolds)@[k].1.decision,
        scaffold_records(final(scaffolds)@) == put_scaffold(scaffold_records(old(scaffolds)@), id_view(*id), written@, path@),
{
    let ghost before = scaffolds@;
    match scaffold_index(scaffolds, id) {
        Some(k) => {
            let (sid, mut sc) = scaffolds.remove(k);
            let ghost was = sc;
            put_file_in(&mut sc.files, written, path);
            scaffolds.insert(k, (sid, sc));
            assert(scaffolds@ =~= before.update(k as int, (sid, sc)));
            proof {
                let v = scaffold_records(before);
                assert(v[k as int] == (id_view(sid), was.decision, files_view(was.files@)));
                assert(scaffold_records(scaffolds@) =~= v.update(k as int, (v[k as int].0, v[k as int].1, put_file(v[k as int].2, written@, path@))));
            }
        },
        None => {},
    }
}

/// Every scaffold file that applies, recorded in its scaffold where it is.
fn record_files(scaffolds: &mut Vec<(ScaffoldId, Scaffold)>, gates: &Vec<EntryGate>, entries: &Vec<Entry>, on: &Vec<bool>)
    requires
        gates@.len() == entries@.len(),
        on@.len() == entries@.len(),
    ensures
        final(scaffolds)@.len() == old(scaffolds)@.len(),
        forall|k: int| 0 <= k < final(scaffolds)@.len() ==> id_view((#[trigger] final(scaffolds)@[k]).0) == id_view(old(scaffolds)@[k].0)
            && final(scaffolds)@[k].1.decision == old(scaffolds)@[k].1.decision,
        scaffold_records(final(scaffolds)@) == recorded(scaffold_records(old(scaffolds)@), gates@, entries@, on@, entries@.len() as int),
{
    let ghost before = scaffolds@;
    let mut i: usize = 0;
    while i < entries.len()
        invariant
            i <= entries@.len(),
            gates@.len() == entries@.len(),
            on@.len() == entries@.len(),
            scaffolds@.len() == before.len(),
            forall|k: int| 0 <= k < scaffolds@.len() ==> id_view((#[trigger] scaffolds@[k]).0) == id_view(before[k].0)
                && scaffolds@[k].1.decision == before[k].1.decision,
            scaffold_records(scaffolds@) == recorded(scaffold_records(before), gates@, entries@, on@, i as int),
        decreases entries@.len() - i,
    {
        if on[i] && gates[i].provided {
            if let Some((id, written)) = &gates[i].scaffold {
                put_scaffold_file(scaffolds, id, written, &entries[i].path);
            }
        }
        i += 1;
    }
}

/// For each entry, in order: why its scaffold turns it off, whether it loses its record, whether
/// it starts on; and the entries `exists` gates, with their patterns.
fn sort_out(
    entries: &Vec<Entry>,
    gates: &Vec<EntryGate>,
    scaffolds: &Vec<(ScaffoldId, Scaffold)>,
    rescaffolds: &Vec<ScaffoldId>,
) -> (r: (Vec<Option<Reason>>, Vec<bool>, Vec<bool>, Vec<Gated>))
    requires
        gates@.len() == entries@.len(),
        forall|i: int, k: int| 0 <= i < gates@.len() && 0 <= k < gates@[i].exists@.len() ==> pattern_wf(
            #[trigger] gates@[i].exists@[k]),
    ensures
        ({
            let (off, clear, base, gated) = r;
            &&& off@.len() == entries@.len() && clear@.len() == entries@.len() && base@.len() == entries@.len()
            &&& forall|i: int| 0 <= i < entries@.len() ==> match first_why(scaffolds@, entries@[i], #[trigger] gates@[i]) {
                Some(w) => off@[i] matches Some(r) && r@ == w,
                None => off@[i] is None,
            }
            &&& forall|i: int| 0 <= i < entries@.len() ==> clear@[i] == rewritten(scaffolds@, rescaffolds@, entries@[i], #[trigger] gates@[i])
            &&& forall|i: int| 0 <= i < entries@.len() ==> base@[i] == (first_why(scaffolds@, entries@[i], #[trigger] gates@[i]) is None)
            &&& forall|j: int| 0 <= j < gated@.len() ==> (#[trigger] gated@[j]).at < entries@.len() && gated_by(scaffolds@, entries@[gated@[j].at as int], gates@[gated@[j].at as int])
                && gated@[j].patterns@ == gates@[gated@[j].at as int].exists@
            &&& forall|a: int, b: int| 0 <= a < b < gated@.len() ==> (#[trigger] gated@[a]).at < (#[trigger] gated@[b]).at
            &&& forall|i: int| 0 <= i < entries@.len() ==> (is_gated(gated@, i) <==> gated_by(scaffolds@, entries@[i], #[trigger] gates@[i]))
        }),
{
    let ghost given = entries@;
    let ghost decided = scaffolds@;
    let n = entries.len();
    let mut off: Vec<Option<Reason>> = Vec::new();
    let mut clear: Vec<bool> = Vec::new();
    let mut base: Vec<bool> = Vec::new();
    let mut gated: Vec<Gated> = Vec::new();
    let mut at: usize = 0;
    while at < n
        invariant
            at <= n,
            n == entries@.len(),
            entries@ == given,
            scaffolds@ == decided,
            gates@.len() == n,
            forall|i: int, k: int| 0 <= i < gates@.len() && 0 <= k < gates@[i].exists@.len() ==> pattern_wf(
                #[trigger] gates@[i].exists@[k]),
            off@.len() == at,
            clear@.len() == at,
            base@.len() == at,
            forall|i: int| 0 <= i < at ==> match first_why(decided, given[i], #[trigger] gates@[i]) {
                Some(w) => off@[i] matches Some(r) && r@ == w,
                None => off@[i] is None,
            },
            forall|i: int| 0 <= i < at ==> clear@[i] == rewritten(decided, rescaffolds@, given[i], gates@[i]),
            forall|i: int| 0 <= i < at ==> base@[i] == (first_why(decided, given[i], gates@[i]) is None),
            forall|j: int| 0 <= j < gated@.len() ==> (#[trigger] gated@[j]).at < at && gated_by(decided, given[gated@[j].at as int], gates@[gated@[j].at as int])
                && gated@[j].patterns@ == gates@[gated@[j].at as int].exists@,
            forall|a: int, b: int| 0 <= a < b < gated@.len() ==> (#[trigger] gated@[a]).at < (#[trigger] gated@[b]).at,
            forall|i: int| 0 <= i < at && gated_by(decided, given[i], gates@[i]) ==> is_gated(gated@, i),
        decreases n - at,
    {
        let e = &entries[at];
        let g = &gates[at];
        let mut why: Option<Reason> = None;
        let mut again = false;
        if g.provided {
            if let Some((id, written)) = &g.scaffold {
                why = scaffold_reason(scaffolds, id, written, &e.path);
                if why.is_none() && lists(rescaffolds, id) {
                    again = true;
                }
            }
        }
        if g.provided && why.is_none() && g.exists.len() > 0 {
            let ghost was = gated@;
            gated.push(Gated { at, patterns: copy_patterns(&g.exists) });
            proof {
                assert(gated@ == was.push(gated@.last()));
                assert forall|i: int| 0 <= i < at + 1 && gated_by(decided, given[i], gates@[i]) implies is_gated(gated@, i) by {
                    if i < at {
                        assert(is_gated(was, i));
                        let j = choose|j: int| 0 <= j < was.len() && (#[trigger] was[j]).at == i;
                        assert(gated@[j] == was[j]);
                    } else {
                        assert(gated@[was.len() as int].at == i);
                    }
                }
            }
        }
        base.push(why.is_none());
        clear.push(again);
        off.push(why);
        at += 1;
    }
    proof {
        assert forall|i: int| 0 <= i < n implies (is_gated(gated@, i) <==> gated_by(decided, given[i], #[trigger] gates@[i])) by {
            if is_gated(gated@, i) {
                let m = choose|m: int| 0 <= m < gated@.len() && (#[trigger] gated@[m]).at == i;
            }
        }
    }
    (off, clear, base, gated)
}

/// Settles scaffolds and `exists` for `entries`, each with its gates, against the decided
/// `scaffolds` and `disk`: an entry left off with a record is released, one without is dropped.
///
/// An entry whose scaffold found the target's own, or wrote it elsewhere, is off. One whose
/// scaffold is written again loses its record. `exists` settles as the least fixpoint over the
/// entries as they will be ([`settle_exists`]), and an entry it leaves off is off for its first
/// path or glob that will not exist. Every scaffold file that applies is recorded where it is.
pub fn settle(
    entries: &mut Vec<Entry>,
    gates: &Vec<EntryGate>,
    scaffolds: &mut Vec<(ScaffoldId, Scaffold)>,
    rescaffolds: &Vec<ScaffoldId>,
    disk: &Disk,
) -> (s: Settled)
    requires
        gates@.len() == old(entries)@.len(),
        forall|i: int, k: int| 0 <= i < gates@.len() && 0 <= k < gates@[i].exists@.len() ==> pattern_wf(
            #[trigger] gates@[i].exists@[k]),
    ensures
        s.on@.len() == old(entries)@.len(),
        s.off@.len() == old(entries)@.len(),
        forall|i: int| 0 <= i < old(entries)@.len() && !gated_by(old(scaffolds)@, old(entries)@[i], gates@[i])
            ==> s.on@[i] == (first_why(old(scaffolds)@, old(entries)@[i], gates@[i]) is None),
        forall|i: int| 0 <= i < old(entries)@.len() && gated_by(old(scaffolds)@, old(entries)@[i], gates@[i])
            ==> (s.on@[i] <==> all_hold_at(
                facts_spec(now_of(old(entries)@, old(scaffolds)@, rescaffolds@, gates@)),
                *disk,
                s.on@,
                i,
                gates@[i].exists@,
                longest_of(now_of(old(entries)@, old(scaffolds)@, rescaffolds@, gates@)),
            )),
        forall|i: int| 0 <= i < old(entries)@.len() ==> match first_why(old(scaffolds)@, old(entries)@[i], #[trigger] gates@[i]) {
            Some(w) => s.off@[i] matches Some(r) && r@ == w,
            None => if s.on@[i] {
                s.off@[i] is None
            } else {
                s.off@[i] matches Some(r) && r@ == Why::Absent(first_absent(
                    facts_spec(now_of(old(entries)@, old(scaffolds)@, rescaffolds@, gates@)),
                    *disk,
                    s.on@,
                    i,
                    gates@[i].exists@,
                    longest_of(now_of(old(entries)@, old(scaffolds)@, rescaffolds@, gates@)),
                )->0)
            },
        },
        final(entries)@.map_values(|e: Entry| entry_shown(e)) == released_entries(
            now_of(old(entries)@, old(scaffolds)@, rescaffolds@, gates@),
            s.off@,
        ),
        stays_as(final(entries)@, now_of(old(entries)@, old(scaffolds)@, rescaffolds@, gates@), s.off@),
        s.gated@.map_values(|g: (Slot, Reason)| (slot_view(g.0), g.1@)) == gated_list(
            now_of(old(entries)@, old(scaffolds)@, rescaffolds@, gates@),
            s.off@,
        ),
        final(scaffolds)@.len() == old(scaffolds)@.len(),
        forall|k: int| 0 <= k < final(scaffolds)@.len() ==> id_view((#[trigger] final(scaffolds)@[k]).0) == id_view(old(scaffolds)@[k].0)
            && final(scaffolds)@[k].1.decision == old(scaffolds)@[k].1.decision,
        forall|other: Seq<bool>| settle_closed(old(entries)@, old(scaffolds)@, rescaffolds@, gates@, *disk, other) ==> within(
            s.on@,
            other,
        ),
{
    let ghost given = entries@;
    let ghost decided = scaffolds@;
    let n = entries.len();
    let (mut off, clear, base, gated) = sort_out(entries, gates, scaffolds, rescaffolds);
    clear_records(entries, &clear);
    let ghost now = entries@;
    assert(now =~= now_of(given, decided, rescaffolds@, gates@));
    let facts = facts_of(entries);
    let bound = longest(entries);
    proof {
        assert forall|i: int| 0 <= i < facts@.len() implies (#[trigger] facts@[i]).path@.len() <= bound by {
            assert(facts@[i] == facts_spec(now)[i]);
        }
        assert forall|i: int, k: int| 0 <= i < gated@.len() && 0 <= k < gated@[i].patterns@.len() implies pattern_wf(
            #[trigger] gated@[i].patterns@[k]) by {
            assert(gated@[i].patterns@[k] == gates@[gated@[i].at as int].exists@[k]);
        }
    }
    let on = settle_exists(&facts, disk, &gated, &base, bound);
    let exists = mark_absent(&facts, disk, &on, &gated, bound, entries, &mut off);
    record_files(scaffolds, gates, entries, &on);
    let released = release(entries, &off);
    proof {
        assert forall|i: int| 0 <= i < n && gated_by(decided, given[i], gates@[i]) implies (on@[i] <==> all_hold_at(
            facts_spec(now), *disk, on@, i, gates@[i].exists@, bound as int)) by {
            let m = choose|m: int| 0 <= m < gated@.len() && (#[trigger] gated@[m]).at == i;
            lemma_all_hold_at(facts@, *disk, on@, gated@[m], bound as int);
        }
        assert forall|i: int| 0 <= i < n && !gated_by(decided, given[i], gates@[i]) implies on@[i] == (first_why(decided, given[i], gates@[i]) is None) by {
            assert(!is_gated(gated@, i));
        }
        assert forall|i: int| 0 <= i < n implies match first_why(decided, given[i], #[trigger] gates@[i]) {
            Some(w) => off@[i] matches Some(r) && r@ == w,
            None => if on@[i] {
                off@[i] is None
            } else {
                off@[i] matches Some(r) && r@ == Why::Absent(first_absent(facts_spec(now), *disk, on@, i, gates@[i].exists@, bound as int)->0)
            },
        } by {
            if is_gated(gated@, i) {
                let m = choose|m: int| 0 <= m < gated@.len() && (#[trigger] gated@[m]).at == i;
            } else {
                assert(on@[i] == base@[i]);
            }
        }
    }
    proof {
        assert forall|other: Seq<bool>| settle_closed(given, decided, rescaffolds@, gates@, *disk, other) implies within(on@, other) by {
            assert forall|j: int| 0 <= j < gated@.len() && all_hold(facts@, *disk, other, #[trigger] gated@[j], bound as int) implies other[gated@[j].at as int] by {
                lemma_all_hold_at(facts@, *disk, other, gated@[j], bound as int);
                let i = gated@[j].at as int;
                assert(gated_by(decided, given[i], gates@[i]));
            }
            assert forall|i: int| 0 <= i < other.len() && !is_gated(gated@, i) implies other[i] == base@[i] by {}
            assert(closed(facts@, *disk, gated@, base@, other, bound as int));
        }
    }
    Settled { on, off, gated: released, exists }
}

/// Whether `other` is closed under what settling entries `given` decides: each entry that no
/// `exists` gates is on exactly when nothing else turns it off, and each gated entry whose
/// patterns all hold, over what `other` turns on, is on.
pub open spec fn settle_closed(
    given: Seq<Entry>,
    decided: Seq<(ScaffoldId, Scaffold)>,
    rescaffolds: Seq<ScaffoldId>,
    gates: Seq<EntryGate>,
    disk: Disk,
    other: Seq<bool>,
) -> bool {
    let now = now_of(given, decided, rescaffolds, gates);
    &&& other.len() == given.len()
    &&& forall|i: int| 0 <= i < given.len() && !gated_by(decided, given[i], #[trigger] gates[i]) ==> other[i] == (first_why(
        decided,
        given[i],
        gates[i],
    ) is None)
    &&& forall|i: int| 0 <= i < given.len() && gated_by(decided, given[i], #[trigger] gates[i]) && all_hold_at(
        facts_spec(now),
        disk,
        other,
        i,
        gates[i].exists@,
        longest_of(now),
    ) ==> other[i]
}

/// Each slot `exists` gates, with how each of its patterns came out; and in `off`, each gated
/// entry left off marked absent for its first pattern that does not hold.
fn mark_absent(
    facts: &Vec<Fact>,
    disk: &Disk,
    on: &Vec<bool>,
    gated: &Vec<Gated>,
    bound: usize,
    entries: &Vec<Entry>,
    off: &mut Vec<Option<Reason>>,
) -> (exists: Vec<(Slot, Vec<(String, bool)>)>)
    requires
        on@.len() == facts@.len(),
        entries@.len() == facts@.len(),
        old(off)@.len() == facts@.len(),
        forall|i: int| 0 <= i < facts@.len() ==> (#[trigger] facts@[i]).path@.len() <= bound,
        forall|m: int| 0 <= m < gated@.len() ==> (#[trigger] gated@[m]).at < facts@.len(),
        forall|a: int, b: int| 0 <= a < b < gated@.len() ==> (#[trigger] gated@[a]).at < (#[trigger] gated@[b]).at,
        forall|m: int, k: int| 0 <= m < gated@.len() && 0 <= k < gated@[m].patterns@.len() ==> pattern_wf(
            #[trigger] gated@[m].patterns@[k]),
        forall|m: int| 0 <= m < gated@.len() ==> (on@[(#[trigger] gated@[m]).at as int] <==> all_hold(facts@, *disk, on@, gated@[m], bound as int)),
    ensures
        final(off)@.len() == old(off)@.len(),
        forall|i: int| 0 <= i < facts@.len() && !is_gated(gated@, i) ==> final(off)@[i] == old(off)@[i],
        forall|m: int| 0 <= m < gated@.len() && on@[(#[trigger] gated@[m]).at as int] ==> final(off)@[gated@[m].at as int]
            == old(off)@[gated@[m].at as int],
        forall|m: int| 0 <= m < gated@.len() && !on@[(#[trigger] gated@[m]).at as int] ==> (final(off)@[gated@[m].at as int] matches Some(r)
            && r@ == Why::Absent(first_absent(facts@, *disk, on@, gated@[m].at as int, gated@[m].patterns@, bound as int)->0)
            && first_absent(facts@, *disk, on@, gated@[m].at as int, gated@[m].patterns@, bound as int) is Some),
{
    let ghost off0 = off@;
    let mut exists: Vec<(Slot, Vec<(String, bool)>)> = Vec::new();
    let mut j: usize = 0;
    while j < gated.len()
        invariant
            j <= gated@.len(),
            on@.len() == facts@.len(),
            entries@.len() == facts@.len(),
            off@.len() == facts@.len(),
            off0.len() == facts@.len(),
            forall|i: int| 0 <= i < facts@.len() ==> (#[trigger] facts@[i]).path@.len() <= bound,
            forall|m: int| 0 <= m < gated@.len() ==> (#[trigger] gated@[m]).at < facts@.len(),
            forall|a: int, b: int| 0 <= a < b < gated@.len() ==> (#[trigger] gated@[a]).at < (#[trigger] gated@[b]).at,
            forall|m: int, k: int| 0 <= m < gated@.len() && 0 <= k < gated@[m].patterns@.len() ==> pattern_wf(
                #[trigger] gated@[m].patterns@[k]),
            forall|m: int| 0 <= m < gated@.len() ==> (on@[(#[trigger] gated@[m]).at as int] <==> all_hold(facts@, *disk, on@, gated@[m], bound as int)),
            forall|i: int| 0 <= i < facts@.len() && !(exists|m: int| 0 <= m < j && (#[trigger] gated@[m]).at == i) ==> off@[i] == off0[i],
            forall|m: int| 0 <= m < j && on@[(#[trigger] gated@[m]).at as int] ==> off@[gated@[m].at as int] == off0[gated@[m].at as int],
            forall|m: int| 0 <= m < j && !on@[(#[trigger] gated@[m]).at as int] ==> (off@[gated@[m].at as int] matches Some(r)
                && r@ == Why::Absent(first_absent(facts@, *disk, on@, gated@[m].at as int, gated@[m].patterns@, bound as int)->0)
                && first_absent(facts@, *disk, on@, gated@[m].at as int, gated@[m].patterns@, bound as int) is Some),
        decreases gated@.len() - j,
    {
        let g = &gated[j];
        let mut outcomes: Vec<(String, bool)> = Vec::new();
        let mut absent: Option<String> = None;
        let ghost all = g.patterns@.map_values(|p: Pattern| if holds(facts@, *disk, on@, g.at as int, p, bound as int) {
            None
        } else {
            Some(pattern_text(p))
        });
        let mut k: usize = 0;
        while k < g.patterns.len()
            invariant
                k <= g.patterns@.len(),
                j < gated@.len(),
                *g == gated@[j as int],
                on@.len() == facts@.len(),
                forall|i: int| 0 <= i < facts@.len() ==> (#[trigger] facts@[i]).path@.len() <= bound,
                forall|m: int, q: int| 0 <= m < gated@.len() && 0 <= q < gated@[m].patterns@.len() ==> pattern_wf(
                    #[trigger] gated@[m].patterns@[q]),
                all == g.patterns@.map_values(|p: Pattern| if holds(facts@, *disk, on@, g.at as int, p, bound as int) {
                    None
                } else {
                    Some(pattern_text(p))
                }),
                match absent {
                    None => first_set(all.take(k as int)) is None,
                    Some(t) => first_set(all.take(k as int)) == Some(t@),
                },
            decreases g.patterns@.len() - k,
        {
            proof {
                crate::text::lemma_first_set_step(all, k as int);
            }
            let held = holds_now(facts, disk, on, g.at, &g.patterns[k], bound);
            if !held && absent.is_none() {
                absent = Some(g.patterns[k].as_str().to_owned());
            }
            outcomes.push((g.patterns[k].as_str().to_owned(), held));
            k += 1;
        }
        assert(all.take(g.patterns@.len() as int) == all);
        let here = g.at;
        if !on[here] {
            proof {
                lemma_all_hold_at(facts@, *disk, on@, *g, bound as int);
                let q = choose|q: int| 0 <= q < g.patterns@.len() && !holds(facts@, *disk, on@, g.at as int, #[trigger] g.patterns@[q], bound as int);
                assert(all[q] is Some);
                crate::text::lemma_first_set_some(all, q);
            }
        }
        exists.push((slot(&entries[here]), outcomes));
        let ghost before = off@;
        if !on[here] {
            match absent {
                Some(t) => {
                    off.set(here, Some(Reason::Absent(t)));
                },
                None => {},
            }
        }
        proof {
            assert forall|i: int| 0 <= i < facts@.len() && !(exists|m: int| 0 <= m < j + 1 && (#[trigger] gated@[m]).at == i) implies off@[i] == off0[i] by {
                assert(gated@[j as int].at != i);
            }
            assert forall|m: int| 0 <= m < j && (#[trigger] gated@[m]).at == here implies false by {
                assert(gated@[m].at < gated@[j as int].at);
            }
        }
        j += 1;
    }
    proof {
        assert forall|i: int| 0 <= i < facts@.len() && !is_gated(gated@, i) implies off@[i] == off0[i] by {
            if exists|m: int| 0 <= m < gated@.len() && (#[trigger] gated@[m]).at == i {
                assert(is_gated(gated@, i));
            }
        }
    }
    exists
}

/// `entries` released where `off` gives a reason; and the slot and reason of each entry turned
/// off.
fn release(entries: &mut Vec<Entry>, off: &Vec<Option<Reason>>) -> (released: Vec<(Slot, Reason)>)
    requires
        off@.len() == old(entries)@.len(),
    ensures
        final(entries)@.map_values(|e: Entry| entry_shown(e)) == released_entries(old(entries)@, off@),
        released@.map_values(|g: (Slot, Reason)| (slot_view(g.0), g.1@)) == gated_list(old(entries)@, off@),
        stays_as(final(entries)@, old(entries)@, off@),
{
    let ghost now = entries@;
    let n = entries.len();
    let mut taken: Vec<Entry> = Vec::new();
    std::mem::swap(entries, &mut taken);
    let mut released: Vec<(Slot, Reason)> = Vec::new();
    assert(entries@.map_values(|e: Entry| entry_shown(e)) =~= released_entries(now.take(0), off@.take(0)));
    assert(released@.map_values(|g: (Slot, Reason)| (slot_view(g.0), g.1@)) =~= gated_list(now.take(0), off@.take(0)));
    let mut i: usize = 0;
    while i < n
        invariant
            i <= n,
            n == now.len(),
            off@.len() == n,
            taken@ == now.skip(i as int),
            entries@.map_values(|e: Entry| entry_shown(e)) == released_entries(now.take(i as int), off@.take(i as int)),
            released@.map_values(|g: (Slot, Reason)| (slot_view(g.0), g.1@)) == gated_list(now.take(i as int), off@.take(i as int)),
            entries@.len() == staying(now.take(i as int), off@.take(i as int)).len(),
            forall|k: int| 0 <= k < entries@.len() ==> #[trigger] staying(now.take(i as int), off@.take(i as int))[k] < i,
            forall|k: int| 0 <= k < entries@.len() ==> match off@[#[trigger] staying(now.take(i as int), off@.take(i as int))[k]] {
                None => entries@[k] == now[staying(now.take(i as int), off@.take(i as int))[k]],
                Some(r) => released_as(entries@[k], now[staying(now.take(i as int), off@.take(i as int))[k]], r),
            },
        decreases n - i,
    {
        let ghost before = entries@;
        proof {
            lemma_staying(now.take(i as int), off@.take(i as int));
            let t1 = now.take(i + 1);
            let o1 = off@.take(i + 1);
            assert(t1.drop_last() =~= now.take(i as int));
            assert(o1.drop_last() =~= off@.take(i as int));
        }
        let mut e = taken.remove(0);
        assert(e == now[i as int]);
        let ghost shown = entries@.map_values(|e: Entry| entry_shown(e));
        let ghost listed = released@.map_values(|g: (Slot, Reason)| (slot_view(g.0), g.1@));
        proof {
            assert(now.take(i + 1).drop_last() == now.take(i as int));
            assert(off@.take(i + 1).drop_last() == off@.take(i as int));
            assert(now.take(i + 1).last() == now[i as int]);
            assert(off@.take(i + 1).last() == off@[i as int]);
        }
        match &off[i] {
            None => {
                entries.push(e);
                assert(entries@.map_values(|e: Entry| entry_shown(e)) =~= shown.push(entry_shown(now[i as int])));
            },
            Some(r) => {
                released.push((slot(&e), r.clone()));
                assert(released@.map_values(|g: (Slot, Reason)| (slot_view(g.0), g.1@)) =~= listed.push((slot_of(now[i as int]), r@)));
                if e.record.is_some() {
                    e.want = None;
                    e.gate = Some(r.clone());
                    let ghost f = e;
                    entries.push(e);
                    assert(entries@.map_values(|e: Entry| entry_shown(e)) =~= shown.push(entry_shown(f)));
                }
            },
        }
        proof {
            let st0 = staying(now.take(i as int), off@.take(i as int));
            let st1 = staying(now.take(i + 1), off@.take(i + 1));
            assert(now.take(i + 1).last() == now[i as int]);
            assert(off@.take(i + 1).last() == off@[i as int]);
            assert forall|k: int| 0 <= k < st0.len() implies st1[k] == st0[k] by {}
            assert forall|k: int| 0 <= k < entries@.len() implies #[trigger] st1[k] < i + 1 && match off@[st1[k]] {
                None => entries@[k] == now[st1[k]],
                Some(r) => released_as(entries@[k], now[st1[k]], r),
            } by {
                if k < before.len() {
                    assert(entries@[k] == before[k]);
                    assert(st1[k] == st0[k]);
                }
            }
        }
        i += 1;
        assert(taken@ =~= now.skip(i as int));
    }
    assert(now.take(n as int) == now);
    assert(off@.take(n as int) == off@);
    released
}

/// The slot and reason of every entry of `es` that `off` turns off, in order.
pub open spec fn gated_list(es: Seq<Entry>, off: Seq<Option<Reason>>) -> Seq<((Seq<char>, Option<Seq<char>>), Why)>
    decreases es.len(),
{
    if es.len() == 0 || off.len() != es.len() {
        Seq::empty()
    } else {
        let rest = gated_list(es.drop_last(), off.drop_last());
        match off.last() {
            None => rest,
            Some(r) => rest.push((slot_of(es.last()), r@)),
        }
    }
}

} // verus!
