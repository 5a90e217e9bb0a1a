//! Templates: a layer's payload and paths, rendered with the target's answers and, under
//! `devset`, the graph of profiles.

use vstd::prelude::*;

use crate::errors::ParseError;
use crate::order::{lex_le, lemma_text_order_total, text_le, text_order};
use crate::part::keys::{json_quoted, json_string};
use crate::path::RelPath;
use crate::text::{cat, chars_of, join_with, views};
use crate::vars::{VarError, VarName};

verus! {

/// What templates see under `devset` of one layer, beside the graph.
#[derive(Debug)]
pub struct LayerContext {
    /// Its profile's name.
    pub profile: String,
    /// Its source's name, or where it is for a source a profile requires by `git`.
    pub source: String,
    /// Its features that are on.
    pub features: Vec<String>,
    /// Whether the target configures it, rather than a profile requiring it.
    pub configured: bool,
}

/// The graph, as templates see it under `devset`.
#[derive(Debug)]
pub struct Context {
    /// The target directory's name.
    pub target: String,
    /// Every active profile's name.
    pub profiles: Vec<String>,
    /// Each layer, in the order they apply.
    pub layers: Vec<LayerContext>,
}

/// Texts as a JSON list of strings.
pub open spec fn json_list(items: Seq<Seq<char>>) -> Seq<char> {
    "["@ + join_with(items.map_values(|s: Seq<char>| json_string(s)), ","@) + "]"@
}

/// A flag as JSON.
pub open spec fn json_bool(b: bool) -> Seq<char> {
    if b {
        "true"@
    } else {
        "false"@
    }
}

/// A layer as templates see it, as a JSON object.
pub open spec fn layer_json(l: LayerContext) -> Seq<char> {
    "{\"profile\":"@ + json_string(l.profile@) + ",\"source\":"@ + json_string(l.source@) + ",\"features\":"@
        + json_list(views(l.features@)) + ",\"configured\":"@ + json_bool(l.configured) + "}"@
}

/// What one layer's templates see under `devset`, as a JSON object: the target, every profile,
/// each layer, and the layer's own features.
pub open spec fn devset_json(c: Context, features: Seq<Seq<char>>) -> Seq<char> {
    "{\"target\":"@ + json_string(c.target@) + ",\"profiles\":"@ + json_list(views(c.profiles@)) + ",\"layers\":["@
        + join_with(c.layers@.map_values(|l: LayerContext| layer_json(l)), ","@) + "],\"features\":"@ + json_list(features)
        + "}"@
}

/// The features of the layer whose profile is `profile`: the first such layer's; none where no
/// layer is its.
pub open spec fn features_of(layers: Seq<LayerContext>, profile: Seq<char>) -> Seq<Seq<char>> {
    match crate::text::least(layers.len() as int, |i: int| layers[i].profile@ == profile) {
        Some(i) => views(layers[i].features@),
        None => Seq::empty(),
    }
}

/// One answer as a JSON member.
pub open spec fn answer_json(a: (VarName, String)) -> Seq<char> {
    json_string(a.0@) + ":"@ + json_string(a.1@)
}

/// What the templates of the layer whose profile is `profile` see, as a JSON object: each
/// answer, and `devset`.
pub open spec fn vars_json(c: Context, profile: Seq<char>, answers: Seq<(VarName, String)>) -> Seq<char> {
    "{"@ + join_with(
        answers.map_values(|a: (VarName, String)| answer_json(a)).push(
            "\"devset\":"@ + devset_json(c, features_of(c.layers@, profile)),
        ),
        ","@,
    ) + "}"@
}

/// Texts as a JSON list of strings.
fn list_json(items: &Vec<String>) -> (out: String)
    ensures
        out@ == json_list(views(items@)),
{
    let mut quoted: Vec<String> = Vec::new();
    let mut i: usize = 0;
    while i < items.len()
        invariant
            i <= items@.len(),
            views(quoted@) == views(items@).take(i as int).map_values(|s: Seq<char>| json_string(s)),
        decreases items@.len() - i,
    {
        let ghost was = views(quoted@);
        quoted.push(json_quoted(items[i].as_str()));
        assert(views(quoted@) =~= was.push(json_string(items@[i as int]@)));
        i += 1;
        assert(views(items@).take(i as int).map_values(|s: Seq<char>| json_string(s)) =~= views(items@).take(i - 1).map_values(
            |s: Seq<char>| json_string(s),
        ).push(json_string(items@[i - 1]@)));
    }
    assert(views(items@).take(i as int) =~= views(items@));
    let inner = crate::text::joined_with(&quoted, ",");
    cat(cat("[", inner.as_str()).as_str(), "]")
}

/// A layer as a JSON object.
fn layer_text(l: &LayerContext) -> (out: String)
    ensures
        out@ == layer_json(*l),
{
    let out = cat("{\"profile\":", json_quoted(l.profile.as_str()).as_str());
    let out = cat(out.as_str(), ",\"source\":");
    let out = cat(out.as_str(), json_quoted(l.source.as_str()).as_str());
    let out = cat(out.as_str(), ",\"features\":");
    let out = cat(out.as_str(), list_json(&l.features).as_str());
    let out = cat(out.as_str(), ",\"configured\":");
    let out = cat(out.as_str(), if l.configured {
        "true"
    } else {
        "false"
    });
    cat(out.as_str(), "}")
}

impl Context {
    /// What the templates of the layer whose profile is `profile` see, as a JSON object: each
    /// answer, by name, and `devset`.
    pub fn vars(&self, profile: &str, answers: &Vec<(VarName, String)>) -> (out: String)
        ensures
            out@ == vars_json(*self, profile@, answers@),
    {
        let mut layers: Vec<String> = Vec::new();
        let mut found: Option<usize> = None;
        let ghost p = |i: int| self.layers@[i].profile@ == profile@;
        let mut i: usize = 0;
        while i < self.layers.len()
            invariant
                i <= self.layers@.len(),
                views(layers@) == self.layers@.take(i as int).map_values(|l: LayerContext| layer_json(l)),
                p == (|i: int| self.layers@[i].profile@ == profile@),
                match found {
                    Some(k) => k < i && crate::text::least(self.layers@.len() as int, p) == Some(k as int),
                    None => forall|j: int| 0 <= j < i ==> !#[trigger] p(j),
                },
            decreases self.layers@.len() - i,
        {
            let ghost was = views(layers@);
            layers.push(layer_text(&self.layers[i]));
            assert(views(layers@) =~= was.push(layer_json(self.layers@[i as int])));
            if found.is_none() && crate::text::same(&chars_of(self.layers[i].profile.as_str()), &chars_of(profile)) {
                proof {
                    crate::text::lemma_least(self.layers@.len() as int, p, i as int);
                }
                found = Some(i);
            }
            i += 1;
            assert(self.layers@.take(i as int).map_values(|l: LayerContext| layer_json(l)) =~= self.layers@.take(i - 1).map_values(
                |l: LayerContext| layer_json(l),
            ).push(layer_json(self.layers@[i - 1])));
        }
        assert(self.layers@.take(i as int) =~= self.layers@);
        proof {
            crate::text::lemma_least_found(self.layers@.len() as int, p);
        }
        let features = match found {
            Some(k) => list_json(&self.layers[k].features),
            None => {
                let none: Vec<String> = Vec::new();
                let out = list_json(&none);
                assert(views(none@) =~= Seq::<Seq<char>>::empty());
                out
            },
        };
        let devset = cat("{\"target\":", json_quoted(self.target.as_str()).as_str());
        let devset = cat(devset.as_str(), ",\"profiles\":");
        let devset = cat(devset.as_str(), list_json(&self.profiles).as_str());
        let devset = cat(devset.as_str(), ",\"layers\":[");
        let devset = cat(devset.as_str(), crate::text::joined_with(&layers, ",").as_str());
        let devset = cat(devset.as_str(), "],\"features\":");
        let devset = cat(devset.as_str(), features.as_str());
        let devset = cat(devset.as_str(), "}");
        let mut members: Vec<String> = Vec::new();
        let mut j: usize = 0;
        while j < answers.len()
            invariant
                j <= answers@.len(),
                views(members@) == answers@.take(j as int).map_values(|a: (VarName, String)| answer_json(a)),
            decreases answers@.len() - j,
        {
            let ghost was = views(members@);
            let member = cat(json_quoted(answers[j].0.as_str()).as_str(), ":");
            members.push(cat(member.as_str(), json_quoted(answers[j].1.as_str()).as_str()));
            assert(views(members@) =~= was.push(answer_json(answers@[j as int])));
            j += 1;
            assert(answers@.take(j as int).map_values(|a: (VarName, String)| answer_json(a)) =~= answers@.take(j - 1).map_values(
                |a: (VarName, String)| answer_json(a),
            ).push(answer_json(answers@[j - 1])));
        }
        assert(answers@.take(j as int) =~= answers@);
        let ghost before = views(members@);
        members.push(cat("\"devset\":", devset.as_str()));
        assert(views(members@) =~= before.push("\"devset\":"@ + devset_json(*self, features_of(self.layers@, profile@))));
        let inner = crate::text::joined_with(&members, ",");
        cat(cat("{", inner.as_str()).as_str(), "}")
    }
}

/// What minijinja makes of `source` as the template `name`, once parsed: the variables it uses
/// and does not set itself; else the parse error's message and the bytes it points at.
pub uninterp spec fn compiled(name: Seq<char>, source: Seq<char>) -> Result<Set<Seq<char>>, (Seq<char>, Option<(usize, usize)>)>;

/// minijinja's error.
#[verifier::external_type_specification]
#[verifier::external_body]
pub struct ExMinijinjaError(minijinja::Error);

/// What a minijinja error says: its kind, and its detail where it has one.
#[verifier::external_body]
fn failure(e: minijinja::Error) -> (String, Option<(usize, usize)>) {
    let message = e.detail().map_or_else(|| e.kind().to_string(), |detail| format!("{}: {detail}", e.kind()));
    (message, e.range().map(|r| (r.start, r.end)))
}

/// Parses `source` as the template `name`, `Environment::template_from_named_str`, and lists
/// the variables it uses and does not set, `Template::undeclared_variables`, in no set order.
#[verifier::external_body]
fn compile(name: &str, source: &str) -> (r: Result<Vec<String>, (String, Option<(usize, usize)>)>)
    ensures
        match r {
            Ok(names) => compiled(name@, source@) == Ok::<Set<Seq<char>>, (Seq<char>, Option<(usize, usize)>)>(views(names@).to_set()),
            Err((message, span)) => compiled(name@, source@) == Err::<Set<Seq<char>>, (Seq<char>, Option<(usize, usize)>)>((message@, span)),
        },
{
    let env = minijinja::Environment::new();
    let template = env.template_from_named_str(name, source).map_err(failure)?;
    Ok(template.undeclared_variables(false).into_iter().collect())
}

/// Whether minijinja's environment has a global named `name`, such as `range`.
pub uninterp spec fn global_name(name: Seq<char>) -> bool;

/// Whether a fresh minijinja environment has a global named `name`, `Environment::globals`.
#[verifier::external_body]
fn is_global(name: &str) -> (r: bool)
    ensures
        r == global_name(name@),
{
    minijinja::Environment::new().globals().any(|(global, _)| global == name)
}

/// What minijinja renders of `source` as the template `name`, with `vars`, a JSON object, in
/// scope; undefined values refused, nothing escaped, a trailing newline kept: the text, or the
/// error's message and the bytes it points at.
pub uninterp spec fn rendered(name: Seq<char>, source: Seq<char>, vars: Seq<char>) -> Result<Seq<char>, (Seq<char>, Option<(usize, usize)>)>;

/// Renders `source` as the template `name` with `vars`, `Template::render`, in an environment
/// that refuses undefined values, escapes nothing and keeps a trailing newline.
#[verifier::external_body]
fn render_with(name: &str, source: &str, vars: &str) -> (r: Result<String, (String, Option<(usize, usize)>)>)
    ensures
        match r {
            Ok(text) => rendered(name@, source@, vars@) == Ok::<Seq<char>, (Seq<char>, Option<(usize, usize)>)>(text@),
            Err((message, span)) => rendered(name@, source@, vars@) == Err::<Seq<char>, (Seq<char>, Option<(usize, usize)>)>((message@, span)),
        },
{
    let mut env = minijinja::Environment::new();
    env.set_undefined_behavior(minijinja::UndefinedBehavior::Strict);
    env.set_keep_trailing_newline(true);
    env.set_auto_escape_callback(|_| minijinja::AutoEscape::None);
    let value: serde_json::Value = serde_json::from_str(vars).map_err(|e| (e.to_string(), None))?;
    let template = env.template_from_named_str(name, source).map_err(failure)?;
    template.render(minijinja::Value::from_serialize(&value)).map_err(failure)
}

/// Why a template did not render.
#[derive(Debug)]
pub enum RenderError {
    /// It uses a variable no profile declares.
    Var(VarError),
    /// It does not parse or render.
    Parse(ParseError),
    /// The name it is rendered under is no path.
    Path(crate::path::PathError),
}

/// Whether `r` is what rendering `source`, the template `name` in `file`, with `vars` and
/// `answers`, comes to: the parse error where it does not parse; the least name it uses that it
/// may not, with every answered name; else what minijinja renders, or its error.
pub open spec fn render_result(
    name: Seq<char>,
    source: Seq<char>,
    file: Seq<char>,
    vars: Seq<char>,
    answers: Seq<(VarName, String)>,
    r: Result<String, RenderError>,
) -> bool {
    match compiled(name, source) {
        Err((message, span)) => match r {
            Err(RenderError::Parse(e)) => e.file@ == file && e.text@ == source && e.message@ == message && e.span == span,
            _ => false,
        },
        Ok(used) => if exists|x: Seq<char>| used.contains(x) && !known(x, answers) {
            match r {
                Err(RenderError::Var(VarError::Undeclared { path, name: n, declared })) => path@ == name && least_unknown(used, answers, n@)
                    && declared@.len() == answers.len() && forall|i: int| 0 <= i < declared@.len() ==> (#[trigger] declared@[i])@ == answers[i].0@,
                _ => false,
            }
        } else {
            match rendered(name, source, vars) {
                Ok(text) => r matches Ok(t) && t@ == text,
                Err((message, span)) => match r {
                    Err(RenderError::Parse(e)) => e.file@ == file && e.text@ == source && e.message@ == message && e.span == span,
                    _ => false,
                },
            }
        },
    }
}

/// Whether a template may use `name`: an answer's, `devset`, or a global of the environment.
pub open spec fn known(name: Seq<char>, answers: Seq<(VarName, String)>) -> bool {
    name == "devset"@ || global_name(name) || exists|i: int| 0 <= i < answers.len() && (#[trigger] answers[i]).0@ == name
}

/// The least, in text order, of the names in `used` that a template may not use.
pub open spec fn least_unknown(used: Set<Seq<char>>, answers: Seq<(VarName, String)>, name: Seq<char>) -> bool {
    used.contains(name) && !known(name, answers) && forall|x: Seq<char>| used.contains(x) && !known(x, answers) ==> lex_le(name, x)
}

/// `source`, the template `name` in `file`, rendered with `vars`, the JSON object [`Context::vars`]
/// writes for `answers`: refused where it uses a variable that is neither answered, nor
/// `devset`, nor a global, naming the least such in text order; the parse or render error,
/// pointing at where in `source`, where minijinja has one.
pub fn render(name: &RelPath, source: &str, file: &str, vars: &str, answers: &Vec<(VarName, String)>) -> (r: Result<String, RenderError>)
    ensures
        render_result(name@, source@, file@, vars@, answers@, r),
{
    let used = match compile(name.as_str(), source) {
        Ok(used) => used,
        Err((message, span)) => {
            return Err(RenderError::Parse(ParseError { file: file.to_owned(), text: source.to_owned(), span, message }));
        },
    };
    let ghost set = views(used@).to_set();
    proof {
        lemma_text_order_total();
    }
    let mut least: Option<String> = None;
    let mut i: usize = 0;
    while i < used.len()
        invariant
            i <= used@.len(),
            set == views(used@).to_set(),
            total_ordering_text(),
            match least {
                Some(m) => views(used@).take(i as int).contains(m@) && !known(m@, answers@) && forall|k: int| 0 <= k < i
                    && !known(#[trigger] used@[k]@, answers@) ==> lex_le(m@, used@[k]@),
                None => forall|k: int| 0 <= k < i ==> known(#[trigger] used@[k]@, answers@),
            },
        decreases used@.len() - i,
    {
        let candidate = &used[i];
        let ghost prev: Option<Seq<char>> = if least is Some {
            Some(least->0@)
        } else {
            None
        };
        let unknown = !may_use(candidate.as_str(), answers);
        let better = unknown && match &least {
            None => true,
            Some(m) => !text_le(&chars_of(m.as_str()), &chars_of(candidate.as_str())),
        };
        if better {
            least = Some(candidate.clone());
        }
        proof {
            let t = views(used@).take(i + 1);
            assert(t =~= views(used@).take(i as int).push(used@[i as int]@));
            assert(t[i as int] == candidate@);
            if least is Some {
                let m = least->0;
                if better {
                    assert(m@ == candidate@);
                    assert(t.contains(m@));
                    assert forall|k: int| 0 <= k < i + 1 && !known(#[trigger] used@[k]@, answers@) implies lex_le(m@, used@[k]@) by {
                        if k == i {
                            assert(text_order()(m@, m@));
                        } else {
                            let pm = prev->0;
                            assert(text_order()(pm, candidate@) || text_order()(candidate@, pm));
                            assert(text_order()(pm, used@[k]@));
                            assert(text_order()(candidate@, pm));
                        }
                    }
                } else {
                    assert(prev == Some(m@));
                    let j = choose|j: int| 0 <= j < i && views(used@).take(i as int)[j] == m@;
                    assert(t[j] == m@);
                    assert forall|k: int| 0 <= k < i + 1 && !known(#[trigger] used@[k]@, answers@) implies lex_le(m@, used@[k]@) by {
                        if k == i {
                            assert(text_order()(m@, candidate@));
                        }
                    }
                }
            } else {
                assert(!unknown);
            }
        }
        i += 1;
    }
    assert(views(used@).take(i as int) =~= views(used@));
    match least {
        Some(m) => {
            proof {
                assert(set.contains(m@));
                assert forall|x: Seq<char>| set.contains(x) && !known(x, answers@) implies lex_le(m@, x) by {
                    let k = choose|k: int| 0 <= k < views(used@).len() && views(used@)[k] == x;
                    assert(used@[k]@ == x);
                }
            }
            let mut declared: Vec<VarName> = Vec::new();
            let mut j: usize = 0;
            while j < answers.len()
                invariant
                    j <= answers@.len(),
                    declared@.len() == j,
                    forall|k: int| 0 <= k < j ==> (#[trigger] declared@[k])@ == answers@[k].0@,
                decreases answers@.len() - j,
            {
                declared.push(answers[j].0.clone());
                j += 1;
            }
            Err(RenderError::Var(VarError::Undeclared { path: name.clone(), name: m, declared }))
        },
        None => {
            proof {
                assert forall|x: Seq<char>| set.contains(x) implies known(x, answers@) by {
                    let k = choose|k: int| 0 <= k < views(used@).len() && views(used@)[k] == x;
                    assert(used@[k]@ == x);
                }
            }
            match render_with(name.as_str(), source, vars) {
                Ok(text) => Ok(text),
                Err((message, span)) => Err(RenderError::Parse(ParseError { file: file.to_owned(), text: source.to_owned(), span, message })),
            }
        },
    }
}

/// Text order is total.
pub open spec fn total_ordering_text() -> bool {
    vstd::relations::total_ordering(text_order())
}

/// Whether a template may use `name`.
fn may_use(name: &str, answers: &Vec<(VarName, String)>) -> (r: bool)
    ensures
        r == known(name@, answers@),
{
    let chars = chars_of(name);
    if crate::text::same(&chars, &chars_of("devset")) || is_global(name) {
        return true;
    }
    let mut i: usize = 0;
    while i < answers.len()
        invariant
            i <= answers@.len(),
            chars@ == name@,
            name@ != "devset"@ && !global_name(name@),
            forall|k: int| 0 <= k < i ==> (#[trigger] answers@[k]).0@ != name@,
        decreases answers@.len() - i,
    {
        if crate::text::same(&chars_of(answers[i].0.as_str()), &chars) {
            return true;
        }
        i += 1;
    }
    false
}

/// `written`, a path or a pattern in `file`, its variables answered: rendered as a template named
/// after the manifest where it holds a `{`, else as it is.
pub fn text(written: &str, file: &str, vars: &str, answers: &Vec<(VarName, String)>) -> (r: Result<String, RenderError>)
    ensures
        !crate::text::has(written@, '{') ==> (r matches Ok(t) && t@ == written@),
        crate::text::has(written@, '{') ==> (crate::path::path_rule(crate::collection::manifest_name()) is None
            ==> render_result(crate::collection::manifest_name(), written@, file@, vars@, answers@, r)),
{
    let chars = chars_of(written);
    if !crate::text::contains_char(&chars, '{') {
        return Ok(written.to_owned());
    }
    proof {
        reveal_strlit("");
    }
    match crate::collection::manifest("") {
        Ok(name) => render(&name, written, file, vars, answers),
        Err(e) => Err(RenderError::Path(e)),
    }
}

} // verus!
