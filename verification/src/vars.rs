//! Template variables: declared by profiles, answered by the target.

use vstd::prelude::*;

use crate::order::{lex_le, sort_texts, text_order, texts};
use crate::text::{chars_of, first_set, is_alnum, is_alpha};

verus! {

/// A variable's name: an identifier, `[A-Za-z_][A-Za-z0-9_]*`, but not `devset`, the name
/// templates see the target's profiles under.
#[derive(Debug, PartialEq, Eq, PartialOrd, Ord, Hash)]
pub struct VarName {
    text: String,
}

impl View for VarName {
    type V = Seq<char>;

    closed spec fn view(&self) -> Seq<char> {
        self.text@
    }
}

impl Clone for VarName {
    fn clone(&self) -> (out: Self)
        ensures
            out == *self,
    {
        VarName { text: self.text.clone() }
    }
}

/// Whether `name` is an identifier.
pub open spec fn identifier(name: Seq<char>) -> bool {
    name.len() > 0 && (is_alpha(name[0]) || name[0] == '_') && forall|i: int|
        1 <= i < name.len() ==> is_alnum(#[trigger] name[i]) || name[i] == '_'
}

/// Why a variable is not one.
#[derive(Clone, Debug, PartialEq, Eq)]
pub enum VarError {
    /// The name is not an identifier.
    Name {
        /// The name.
        name: String,
    },
    /// The name is `devset`.
    Reserved,
    /// The target answers a variable no layer declares.
    Unknown {
        /// The variable.
        name: VarName,
        /// Every declared variable.
        declared: Vec<VarName>,
    },
    /// Variables are unanswered.
    Unanswered {
        /// What to ask.
        questions: Vec<Question>,
    },
    /// A template uses a variable no profile declares.
    Undeclared {
        /// The template.
        path: crate::path::RelPath,
        /// The variable.
        name: String,
        /// Every declared name.
        declared: Vec<VarName>,
    },
    /// A template cannot be read as text.
    Template {
        /// The template.
        path: crate::path::RelPath,
        /// Why not.
        reason: String,
    },
}

/// What `[vars.name]` declares.
#[derive(Clone, Debug, Default)]
pub struct VarSpec {
    /// What to ask; the name if unset.
    pub prompt: Option<String>,
    /// The answer offered.
    pub default: Option<String>,
}

/// A variable the target has not answered.
#[derive(Clone, Debug, PartialEq, Eq)]
pub struct Question {
    /// The variable.
    pub name: VarName,
    /// What to ask.
    pub prompt: String,
    /// The answer offered: `None` when no layer offers one, or layers offer different ones.
    pub default: Option<String>,
}

impl VarName {
    /// `name`, checked: an identifier, and not `devset`.
    pub fn new(name: &str) -> (r: Result<VarName, VarError>)
        ensures
            match r {
                Ok(v) => v@ == name@ && identifier(name@) && name@ != "devset"@,
                Err(VarError::Name { name: n }) => n@ == name@ && !identifier(name@),
                Err(VarError::Reserved) => identifier(name@) && name@ == "devset"@,
                Err(_) => false,
            },
    {
        let chars = chars_of(name);
        let n = chars.len();
        let valid = n > 0 && (crate::name::alnum(chars[0]) && !('0' <= chars[0] && chars[0] <= '9')
            || chars[0] == '_');
        if !valid {
            return Err(VarError::Name { name: name.to_owned() });
        }
        let mut i: usize = 1;
        while i < n
            invariant
                n == chars@.len(),
                chars@ == name@,
                1 <= i <= n,
                is_alpha(chars@[0]) || chars@[0] == '_',
                forall|j: int| 1 <= j < i ==> is_alnum(#[trigger] chars@[j]) || chars@[j] == '_',
            decreases n - i,
        {
            let c = chars[i];
            if !(crate::name::alnum(c) || c == '_') {
                assert(!(is_alnum(chars@[i as int]) || chars@[i as int] == '_'));
                return Err(VarError::Name { name: name.to_owned() });
            }
            i += 1;
        }
        if crate::format::is(&chars, "devset") {
            return Err(VarError::Reserved);
        }
        Ok(VarName { text: name.to_owned() })
    }

    /// The name as written.
    pub fn as_str(&self) -> (r: &str)
        ensures
            r@ == self@,
    {
        self.text.as_str()
    }

    /// Whether two names are one.
    pub fn same(&self, other: &VarName) -> (r: bool)
        ensures
            r == (self@ == other@),
    {
        self.text == other.text
    }
}

/// A default, as the layers offer it.
#[derive(Debug, PartialEq, Eq)]
pub enum Offer {
    /// No layer offers one.
    Nothing,
    /// Every layer that offers one offers this.
    Agreed(String),
    /// Layers disagree; the target must answer.
    Disputed,
}

/// An offer, as values.
pub open spec fn offer_view(o: Offer) -> Option<Option<Seq<char>>> {
    match o {
        Offer::Nothing => None,
        Offer::Agreed(d) => Some(Some(d@)),
        Offer::Disputed => Some(None),
    }
}

/// `offer` once a layer offers `default`: the same offer agrees; another disputes.
pub open spec fn offered(offer: Option<Option<Seq<char>>>, default: Option<Seq<char>>) -> Option<Option<Seq<char>>> {
    match default {
        None => offer,
        Some(d) => match offer {
            None => Some(Some(d)),
            Some(Some(f)) => if f == d {
                Some(Some(f))
            } else {
                Some(None)
            },
            Some(None) => Some(None),
        },
    }
}

/// What the layers say about one variable, as values: its name, its first prompt, and the
/// default they offer.
pub type DeclaredView = (Seq<char>, Option<Seq<char>>, Option<Option<Seq<char>>>);

/// Whether `d` declares `name`.
pub open spec fn declares(d: Seq<DeclaredView>, name: Seq<char>) -> bool {
    exists|k: int| 0 <= k < d.len() && (#[trigger] d[k]).0 == name
}

/// Where `name` is in `d`.
pub open spec fn place(d: Seq<DeclaredView>, name: Seq<char>) -> int {
    choose|k: int| 0 <= k < d.len() && (#[trigger] d[k]).0 == name
}

/// The string of an optional string.
pub open spec fn opt_text(s: Option<String>) -> Option<Seq<char>> {
    match s {
        Some(s) => Some(s@),
        None => None,
    }
}

/// What `vars`, every layer's in order, say of each variable, merged, in the order they are
/// first declared: the first prompt given, and the default every offer agrees on.
pub open spec fn declared_of(vars: Seq<(VarName, VarSpec)>) -> Seq<DeclaredView>
    decreases vars.len(),
{
    if vars.len() == 0 {
        Seq::empty()
    } else {
        let d = declared_of(vars.drop_last());
        let (name, spec) = vars.last();
        if declares(d, name@) {
            let k = place(d, name@);
            d.update(k, (name@, match d[k].1 {
                Some(p) => Some(p),
                None => opt_text(spec.prompt),
            }, offered(d[k].2, opt_text(spec.default))))
        } else {
            d.push((name@, opt_text(spec.prompt), offered(None, opt_text(spec.default))))
        }
    }
}

/// What the layers say about one variable.
#[derive(Debug)]
pub struct Declared {
    /// The variable.
    pub name: VarName,
    /// The first prompt given.
    pub prompt: Option<String>,
    /// The default all layers agree on.
    pub default: Offer,
}

/// Declarations, as values.
pub open spec fn declared_view(d: Seq<Declared>) -> Seq<DeclaredView> {
    d.map_values(|x: Declared| (x.name@, opt_text(x.prompt), offer_view(x.default)))
}

/// A copy of `s`.
fn copy_opt(s: &Option<String>) -> (r: Option<String>)
    ensures
        r == *s,
{
    match s {
        Some(s) => Some(s.clone()),
        None => None,
    }
}

/// `offer` once a layer offers `default`.
fn offer(was: Offer, default: &Option<String>) -> (r: Offer)
    ensures
        offer_view(r) == offered(offer_view(was), opt_text(*default)),
{
    match default {
        None => was,
        Some(d) => match was {
            Offer::Nothing => Offer::Agreed(d.clone()),
            Offer::Agreed(f) => if f == *d {
                Offer::Agreed(f)
            } else {
                Offer::Disputed
            },
            Offer::Disputed => Offer::Disputed,
        },
    }
}

/// What `vars`, every layer's in order, say of each variable, merged.
pub fn declare(vars: &Vec<(VarName, VarSpec)>) -> (d: Vec<Declared>)
    ensures
        declared_view(d@) == declared_of(vars@),
        forall|a: int, b: int| 0 <= a < b < d@.len() ==> (#[trigger] d@[a]).name@ != (#[trigger] d@[b]).name@,
{
    let mut d: Vec<Declared> = Vec::new();
    let mut i: usize = 0;
    while i < vars.len()
        invariant
            i <= vars@.len(),
            declared_view(d@) == declared_of(vars@.take(i as int)),
            forall|a: int, b: int| 0 <= a < b < d@.len() ==> (#[trigger] d@[a]).name@ != (#[trigger] d@[b]).name@,
        decreases vars@.len() - i,
    {
        let (name, spec) = (&vars[i].0, &vars[i].1);
        let ghost before = declared_view(d@);
        proof {
            assert(vars@.take(i + 1).drop_last() == vars@.take(i as int));
            assert(vars@.take(i + 1).last() == vars@[i as int]);
        }
        let mut found: Option<usize> = None;
        let mut k: usize = 0;
        while k < d.len()
            invariant
                k <= d@.len(),
                before == declared_view(d@),
                found matches Some(f) ==> f < d@.len() && d@[f as int].name@ == name@,
                found is None ==> forall|m: int| 0 <= m < k ==> (#[trigger] d@[m]).name@ != name@,
            decreases d@.len() - k,
        {
            if found.is_none() && d[k].name.same(name) {
                found = Some(k);
            }
            k += 1;
        }
        match found {
            Some(f) => {
                proof {
                    assert(declares(before, name@)) by {
                        assert(before[f as int].0 == name@);
                    }
                    let k2 = place(before, name@);
                    if k2 != f as int {
                        assert(d@[k2].name@ == name@);
                        if k2 < f { assert(d@[k2].name@ != d@[f as int].name@); } else { assert(d@[f as int].name@ != d@[k2].name@); }
                    }
                }
                let old_entry = d.remove(f);
                let prompt = match old_entry.prompt {
                    Some(p) => Some(p),
                    None => copy_opt(&spec.prompt),
                };
                let default = offer(old_entry.default, &spec.default);
                d.insert(f, Declared { name: old_entry.name, prompt, default });
                assert(declared_view(d@) =~= before.update(f as int, (name@, match before[f as int].1 {
                    Some(p) => Some(p),
                    None => opt_text(spec.prompt),
                }, offered(before[f as int].2, opt_text(spec.default)))));
                proof {
                    assert forall|a: int, b: int| 0 <= a < b < d@.len() implies (#[trigger] d@[a]).name@ != (#[trigger] d@[b]).name@ by {
                        assert(d@[a].name@ == before[a].0 && d@[b].name@ == before[b].0);
                    }
                }
            },
            None => {
                proof {
                    if declares(before, name@) {
                        let m = choose|m: int| 0 <= m < before.len() && (#[trigger] before[m]).0 == name@;
                        assert(d@[m].name@ == name@);
                    }
                }
                d.push(Declared { name: name.clone(), prompt: copy_opt(&spec.prompt), default: offer(Offer::Nothing, &spec.default) });
                assert(declared_view(d@) =~= before.push((name@, opt_text(spec.prompt), offered(None, opt_text(spec.default)))));
            },
        }
        i += 1;
    }
    assert(vars@.take(vars@.len() as int) == vars@);
    d
}

/// The answer `answered` gives `name`, its first.
pub open spec fn answer_for(answered: Seq<(VarName, String)>, name: Seq<char>) -> Option<Seq<char>> {
    first_set(answered.map_values(|a: (VarName, String)| if a.0@ == name {
        Some(a.1@)
    } else {
        None
    }))
}

/// The declaration of `name` in `d`, as values.
pub open spec fn declaration(d: Seq<DeclaredView>, name: Seq<char>) -> DeclaredView {
    d[place(d, name)]
}

/// The question for an unanswered `name` declared as `d` says: its prompt, else its name; and
/// the default offered, unless disputed.
pub open spec fn question_of(d: DeclaredView) -> (Seq<char>, Seq<char>, Option<Seq<char>>) {
    (d.0, match d.1 {
        Some(p) => p,
        None => d.0,
    }, match d.2 {
        Some(Some(x)) => Some(x),
        _ => None,
    })
}

/// The first of `given` that `d` does not declare.
pub open spec fn unknown_of(d: Seq<DeclaredView>, given: Seq<VarName>) -> Option<Seq<char>> {
    first_set(given.map_values(|g: VarName| if declares(d, g@) {
        None
    } else {
        Some(g@)
    }))
}

/// A question, as values.
pub open spec fn question_view(q: Question) -> (Seq<char>, Seq<char>, Option<Seq<char>>) {
    (q.name@, q.prompt@, opt_text(q.default))
}

/// Where `name` is in `d`.
fn find_declared(d: &Vec<Declared>, name: &String) -> (r: Option<usize>)
    ensures
        match r {
            Some(k) => k < d@.len() && d@[k as int].name@ == name@,
            None => !declares(declared_view(d@), name@),
        },
{
    let mut k: usize = 0;
    while k < d.len()
        invariant
            k <= d@.len(),
            forall|m: int| 0 <= m < k ==> (#[trigger] d@[m]).name@ != name@,
        decreases d@.len() - k,
    {
        if d[k].name.text == *name {
            return Some(k);
        }
        k += 1;
    }
    proof {
        if declares(declared_view(d@), name@) {
            let m = choose|m: int| 0 <= m < declared_view(d@).len() && (#[trigger] declared_view(d@)[m]).0 == name@;
            assert(d@[m].name@ == name@);
        }
    }
    None
}

/// The answer `answered` gives `name`.
fn find_answer(answered: &Vec<(VarName, String)>, name: &String) -> (r: Option<String>)
    ensures
        opt_text(r) == answer_for(answered@, name@),
{
    let ghost all = answered@.map_values(|a: (VarName, String)| if a.0@ == name@ {
        Some(a.1@)
    } else {
        None
    });
    let mut k: usize = 0;
    while k < answered.len()
        invariant
            k <= answered@.len(),
            all == answered@.map_values(|a: (VarName, String)| if a.0@ == name@ {
                Some(a.1@)
            } else {
                None
            }),
            first_set(all.take(k as int)) is None,
        decreases answered@.len() - k,
    {
        proof {
            crate::text::lemma_first_set_step(all, k as int);
        }
        if answered[k].0.text == *name {
            proof {
                crate::text::lemma_first_set_prefix(all, k + 1);
            }
            return Some(answered[k].1.clone());
        }
        k += 1;
    }
    assert(all.take(answered@.len() as int) == all);
    None
}

/// The target's answer to every variable `d` declares, in name order.
///
/// Fails with [`VarError::Unknown`] when the target answers a variable nothing declares, naming
/// the first and every declared one in order; with [`VarError::Unanswered`], every question in
/// name order, when any is unanswered.
pub fn answers(d: &Vec<Declared>, given: &Vec<VarName>, answered: &Vec<(VarName, String)>) -> (r: Result<Vec<(VarName, String)>, VarError>)
    requires
        forall|a: int, b: int| 0 <= a < b < d@.len() ==> (#[trigger] d@[a]).name@ != (#[trigger] d@[b]).name@,
    ensures
        ({
            let dv = declared_view(d@);
            let sorted = dv.map_values(|x: DeclaredView| x.0).sort_by(text_order());
            match r {
                Err(VarError::Unknown { name, declared }) => unknown_of(dv, given@) == Some(name@)
                    && declared@.map_values(|v: VarName| v@) == sorted,
                Err(VarError::Unanswered { questions }) => unknown_of(dv, given@) is None
                    && questions@.len() > 0
                    && questions@.map_values(|q: Question| question_view(q)) == sorted.filter(
                        |n: Seq<char>| answer_for(answered@, n) is None,
                    ).map_values(|n: Seq<char>| question_of(declaration(dv, n))),
                Ok(v) => unknown_of(dv, given@) is None
                    && forall|k: int| 0 <= k < sorted.len() ==> answer_for(answered@, #[trigger] sorted[k]) is Some
                    && v@.map_values(|a: (VarName, String)| (a.0@, a.1@)) == sorted.map_values(|n: Seq<char>| (n, answer_for(answered@, n)->0)),
                Err(_) => false,
            }
        }),
{
    let ghost dv = declared_view(d@);
    proof {
        crate::order::lemma_text_order_total();
    }
    let mut names: Vec<String> = Vec::new();
    let mut i: usize = 0;
    while i < d.len()
        invariant
            i <= d@.len(),
            dv == declared_view(d@),
            texts(names@) == dv.map_values(|x: DeclaredView| x.0).take(i as int),
        decreases d@.len() - i,
    {
        let ghost before = texts(names@);
        names.push(d[i].name.text.clone());
        assert(dv[i as int].0 == d@[i as int].name@);
        assert(texts(names@) =~= before.push(d@[i as int].name@));
        i += 1;
        assert(dv.map_values(|x: DeclaredView| x.0).take(i as int) =~= dv.map_values(|x: DeclaredView| x.0).take(i - 1).push(dv[i - 1].0));
    }
    assert(dv.map_values(|x: DeclaredView| x.0).take(d@.len() as int) == dv.map_values(|x: DeclaredView| x.0));
    let sorted = sort_texts(names);
    let ghost us = given@.map_values(|g: VarName| if declares(dv, g@) {
        None
    } else {
        Some(g@)
    });
    let mut g: usize = 0;
    while g < given.len()
        invariant
            g <= given@.len(),
            dv == declared_view(d@),
            us == given@.map_values(|g: VarName| if declares(dv, g@) {
                None
            } else {
                Some(g@)
            }),
            first_set(us.take(g as int)) is None,
            texts(sorted@) == dv.map_values(|x: DeclaredView| x.0).sort_by(text_order()),
        decreases given@.len() - g,
    {
        proof {
            crate::text::lemma_first_set_step(us, g as int);
        }
        let found = find_declared(d, &given[g].text);
        proof {
            if let Some(at) = found {
                assert(dv[at as int].0 == d@[at as int].name@);
                assert(declares(dv, given@[g as int]@));
            }
        }
        if found.is_none() {
            let mut declared: Vec<VarName> = Vec::new();
            let mut k: usize = 0;
            while k < sorted.len()
                invariant
                    k <= sorted@.len(),
                    declared@.map_values(|v: VarName| v@) == texts(sorted@).take(k as int),
                decreases sorted@.len() - k,
            {
                let ghost before = declared@.map_values(|v: VarName| v@);
                declared.push(VarName { text: sorted[k].clone() });
                assert(declared@.map_values(|v: VarName| v@) =~= before.push(sorted@[k as int]@));
                k += 1;
                assert(texts(sorted@).take(k as int) =~= texts(sorted@).take(k - 1).push(sorted@[k - 1]@));
            }
            assert(texts(sorted@).take(sorted@.len() as int) == texts(sorted@));
            proof {
                crate::text::lemma_first_set_prefix(us, g + 1);
            }
            return Err(VarError::Unknown { name: given[g].clone(), declared });
        }
        g += 1;
    }
    assert(us.take(given@.len() as int) == us);
    let ghost ts = texts(sorted@);
    let ghost pick = |n: Seq<char>| answer_for(answered@, n) is None;
    let ghost ask = |n: Seq<char>| question_of(declaration(dv, n));
    let mut out: Vec<(VarName, String)> = Vec::new();
    let mut questions: Vec<Question> = Vec::new();
    let mut k: usize = 0;
    while k < sorted.len()
        invariant
            k <= sorted@.len(),
            dv == declared_view(d@),
            ts == texts(sorted@),
            ts == dv.map_values(|x: DeclaredView| x.0).sort_by(text_order()),
            forall|a: int, b: int| 0 <= a < b < d@.len() ==> (#[trigger] d@[a]).name@ != (#[trigger] d@[b]).name@,
            pick == (|n: Seq<char>| answer_for(answered@, n) is None),
            ask == (|n: Seq<char>| question_of(declaration(dv, n))),
            questions@.map_values(|q: Question| question_view(q)) == ts.take(k as int).filter(pick).map_values(ask),
            questions@.len() == 0 ==> forall|m: int| 0 <= m < k ==> answer_for(answered@, #[trigger] ts[m]) is Some,
            questions@.len() == 0 ==> out@.map_values(|a: (VarName, String)| (a.0@, a.1@)) == ts.take(k as int).map_values(|n: Seq<char>| (n, answer_for(answered@, n)->0)),
            unknown_of(dv, given@) is None,
        decreases sorted@.len() - k,
    {
        let name = &sorted[k];
        proof {
            assert(ts.take(k + 1).drop_last() == ts.take(k as int));
            assert(ts.take(k + 1).last() == name@);
            reveal(Seq::filter);
        }
        let ghost before = questions@.map_values(|q: Question| question_view(q));
        match find_answer(answered, name) {
            Some(a) => {
                let ghost was = out@.map_values(|a: (VarName, String)| (a.0@, a.1@));
                out.push((VarName { text: name.clone() }, a));
                assert(out@.map_values(|a: (VarName, String)| (a.0@, a.1@)) =~= was.push((name@, answer_for(answered@, name@)->0)));
                assert(ts.take(k + 1).map_values(|n: Seq<char>| (n, answer_for(answered@, n)->0)) =~= ts.take(k as int).map_values(|n: Seq<char>| (n, answer_for(answered@, n)->0)).push((name@, answer_for(answered@, name@)->0)));
            },
            None => {
                proof {
                    all_sorted_declared(dv, ts, k as int);
                }
                match find_declared(d, name) {
                    Some(at) => {
                        let decl = &d[at];
                        proof {
                            assert(dv[at as int].0 == name@);
                            let p = place(dv, name@);
                            if p != at as int {
                                assert(dv[p].0 == name@);
                                if p < at { assert(d@[p].name@ != d@[at as int].name@); } else { assert(d@[at as int].name@ != d@[p].name@); }
                            }
                        }
                        let prompt = match &decl.prompt {
                            Some(p) => p.clone(),
                            None => name.clone(),
                        };
                        let default = match &decl.default {
                            Offer::Agreed(x) => Some(x.clone()),
                            _ => None,
                        };
                        questions.push(Question { name: VarName { text: name.clone() }, prompt, default });
                        assert(questions@.map_values(|q: Question| question_view(q)) =~= before.push(ask(name@)));
                    },
                    None => {},
                }
            },
        }
        k += 1;
    }
    assert(ts.take(sorted@.len() as int) == ts);
    if questions.len() > 0 {
        return Err(VarError::Unanswered { questions });
    }
    Ok(out)
}

/// Every name of a sorted copy of `dv`'s names is declared in `dv`.
proof fn all_sorted_declared(dv: Seq<DeclaredView>, ts: Seq<Seq<char>>, k: int)
    requires
        ts == dv.map_values(|x: DeclaredView| x.0).sort_by(text_order()),
        0 <= k < ts.len(),
    ensures
        declares(dv, ts[k]),
{
    let names = dv.map_values(|x: DeclaredView| x.0);
    crate::order::lemma_text_order_total();
    names.lemma_sort_by_ensures(text_order());
    assert(ts.contains(ts[k]));
    assert(names.to_multiset().count(ts[k]) > 0) by {
        vstd::seq_lib::to_multiset_contains(ts, ts[k]);
        vstd::seq_lib::to_multiset_contains(names, ts[k]);
    }
    vstd::seq_lib::to_multiset_contains(names, ts[k]);
    let j = choose|j: int| 0 <= j < names.len() && names[j] == ts[k];
    assert(dv[j].0 == ts[k]);
}

/// What a [`VarError`] says.
pub open spec fn var_message(e: VarError) -> Seq<char> {
    match e {
        VarError::Name { name } => "invalid variable name "@ + crate::text::debug_str(name@)
            + ": use letters, digits and `_`, not starting with a digit"@,
        VarError::Reserved => "the variable name `devset` is reserved: templates see the target's profiles under it"@,
        VarError::Unknown { name, .. } => "no profile declares a variable named "@ + name@,
        VarError::Unanswered { questions } => crate::errors::plural_of(questions@.len(), "variable"@) + " unanswered: "@
            + crate::errors::listed(questions@.map_values(|q: Question| q.name@)),
        VarError::Undeclared { path, name, .. } => "template "@ + path@ + " uses `"@ + name@ + "`, which no profile declares"@,
        VarError::Template { path, reason } => "template "@ + path@ + " cannot be rendered: "@ + reason@,
    }
}

impl VarError {
    /// The error as a message.
    pub fn to_string(&self) -> (r: String)
        ensures
            r@ == var_message(*self),
    {
        match self {
            VarError::Name { name } => {
                let out = crate::text::cat("invalid variable name ", crate::text::quoted(name.as_str()).as_str());
                crate::text::cat(out.as_str(), ": use letters, digits and `_`, not starting with a digit")
            },
            VarError::Reserved => "the variable name `devset` is reserved: templates see the target's profiles under it".to_owned(),
            VarError::Unknown { name, .. } => crate::text::cat("no profile declares a variable named ", name.as_str()),
            VarError::Unanswered { questions } => {
                let mut names: Vec<String> = Vec::new();
                let mut i: usize = 0;
                while i < questions.len()
                    invariant
                        i <= questions@.len(),
                        crate::text::views(names@) == questions@.take(i as int).map_values(|q: Question| q.name@),
                    decreases questions@.len() - i,
                {
                    let ghost before = crate::text::views(names@);
                    names.push(questions[i].name.text.clone());
                    assert(crate::text::views(names@) =~= before.push(questions@[i as int].name@));
                    i += 1;
                    assert(questions@.take(i as int).map_values(|q: Question| q.name@) =~= questions@.take(i - 1).map_values(|q: Question| q.name@).push(questions@[i - 1].name@));
                }
                assert(questions@.take(questions@.len() as int) == questions@);
                let out = crate::text::cat(crate::errors::plural(questions.len(), "variable").as_str(), " unanswered: ");
                crate::text::cat(out.as_str(), crate::errors::list(&names).as_str())
            },
            VarError::Undeclared { path, name, .. } => {
                let out = crate::text::cat("template ", path.as_str());
                let out = crate::text::cat(out.as_str(), " uses `");
                let out = crate::text::cat(out.as_str(), name.as_str());
                crate::text::cat(out.as_str(), "`, which no profile declares")
            },
            VarError::Template { path, reason } => {
                let out = crate::text::cat("template ", path.as_str());
                let out = crate::text::cat(out.as_str(), " cannot be rendered: ");
                crate::text::cat(out.as_str(), reason.as_str())
            },
        }
    }
}

} // verus!
