use devset_core::errors::ProfileError;
use devset_core::graph::{Built, Configured, Enabler, Graph, Loaded, Warning, build};
use devset_core::name::{FeatureName, ProfileName};
use devset_core::profile::{Features, Manifest, Meta, Requirement};
use devset_core::settings::MergeSpec;
use devset_core::source::Source;

struct Profile {
    name: &'static str,
    requires: Vec<(&'static str, bool, Vec<&'static str>)>,
    features: Vec<(&'static str, Vec<&'static str>)>,
}

fn profile(name: &'static str, requires: Vec<(&'static str, bool, Vec<&'static str>)>, features: Vec<(&'static str, Vec<&'static str>)>) -> Profile {
    Profile { name, requires, features }
}

fn source() -> Source {
    Source::Dir("p".to_owned())
}

fn manifest(p: &Profile) -> Manifest {
    let table = p.features.iter().map(|(n, refs)| ((*n).to_owned(), refs.iter().map(|r| (*r).to_owned()).collect())).collect();
    Manifest {
        profile: Meta { name: ProfileName::new(p.name).unwrap(), version: None, description: None, devset: None },
        requires: p
            .requires
            .iter()
            .map(|(dep, optional, features)| {
                let features = features.iter().map(|f| FeatureName::new(f).unwrap()).collect();
                (ProfileName::new(dep).unwrap(), Requirement { features, default_features: true, optional: *optional, source: None })
            })
            .collect(),
        features: Features::from_table(&table).unwrap(),
        vars: vec![],
        merge: MergeSpec::default(),
        scaffolds: vec![],
        files: vec![],
    }
}

/// The graph of `layers`, reading profiles from `memory` as the graph asks; every read recorded.
fn graph(memory: &[Profile], layers: &[(&str, &[&str], bool)], loaded: &mut Vec<String>) -> Result<Graph, ProfileError> {
    let configured: Vec<Configured> = layers
        .iter()
        .map(|(name, features, defaults)| Configured {
            source: source(),
            name: ProfileName::new(name).unwrap(),
            features: features.iter().map(|f| FeatureName::new(f).unwrap()).collect(),
            defaults: *defaults,
        })
        .collect();
    let mut catalog: Vec<Loaded> = Vec::new();
    loop {
        match build(&configured, &catalog).expect("settles") {
            Ok(Built::Graph(g)) => return Ok(g),
            Ok(Built::Load { name, .. }) => {
                loaded.push(name.as_str().to_owned());
                let p = memory.iter().find(|p| p.name == name.as_str()).expect("a profile the test declares");
                catalog.push(Loaded { source: source(), manifest: manifest(p) });
            },
            Err(e) => return Err(e),
        }
    }
}

fn rank(e: &Enabler) -> (u8, String) {
    match e {
        Enabler::Target => (0, String::new()),
        Enabler::Default => (1, String::new()),
        Enabler::Requires(p) => (2, p.as_str().to_owned()),
        Enabler::Feature { profile, feature } => (3, format!("{}\u{0}{}", profile.as_str(), feature.as_str())),
    }
}

/// Each node's name and its features, with who turned each on, in name order.
fn features(graph: &Graph) -> Vec<(String, Vec<String>)> {
    graph
        .nodes
        .iter()
        .map(|node| {
            let mut on: Vec<(String, Vec<&Enabler>)> = node.features.iter().map(|(f, by)| (f.as_str().to_owned(), by.iter().collect())).collect();
            on.sort_by(|a, b| a.0.cmp(&b.0));
            let on = on
                .into_iter()
                .map(|(f, mut by)| {
                    by.sort_by_key(|e| rank(e));
                    let by: Vec<String> = by.iter().map(|e| e.to_string()).collect();
                    format!("{f} <- {}", by.join(", "))
                })
                .collect();
            (node.name.as_str().to_owned(), on)
        })
        .collect()
}

#[test]
fn defaults_and_implied_features() {
    let memory = [profile("book", vec![], vec![("default", vec!["katex"]), ("katex", vec![]), ("api", vec!["katex"]), ("mermaid", vec![])])];
    let g = graph(&memory, &[("book", &["api"], true)], &mut Vec::new()).expect("a graph");
    assert_eq!(
        features(&g),
        [("book".to_owned(), vec!["api <- target".to_owned(), "katex <- default, book/api".to_owned()])],
        "the defaults, and what a feature implies"
    );
    let g = graph(&memory, &[("book", &[], false)], &mut Vec::new()).expect("a graph");
    assert_eq!(features(&g), [("book".to_owned(), vec![])], "no defaults when switched off");
}

#[test]
fn features_of_requirements_unify() {
    let memory = [
        profile("ci", vec![], vec![("pages", vec![]), ("nightly", vec![])]),
        profile("book", vec![("ci", true, vec![])], vec![("pages", vec!["ci/pages"])]),
        profile("rust", vec![("ci", false, vec!["nightly"]), ("book", false, vec![])], vec![("default", vec!["docs"]), ("docs", vec!["book/pages"])]),
    ];
    let g = graph(&memory, &[("rust", &[], true)], &mut Vec::new()).expect("a graph");
    assert_eq!(
        features(&g),
        [
            ("ci".to_owned(), vec!["nightly <- rust".to_owned(), "pages <- book/pages".to_owned()]),
            ("book".to_owned(), vec!["pages <- rust/docs".to_owned()]),
            ("rust".to_owned(), vec!["docs <- default".to_owned()]),
        ],
        "one node per profile, the union of what each asks, requirements first"
    );
    let ci = g.nodes.iter().find(|n| n.name.as_str() == "ci").expect("ci");
    assert_eq!(ci.required_by.len(), 2, "both requirers");
}

#[test]
fn optional_and_weak_requirements() {
    let memory = [
        profile("lychee", vec![], vec![("strict", vec![])]),
        profile("hook", vec![], vec![("strict", vec![])]),
        profile(
            "book",
            vec![("lychee", true, vec![]), ("hook", true, vec![])],
            vec![("links", vec!["dep:lychee"]), ("strict", vec!["lychee?/strict", "hook?/strict"])],
        ),
    ];
    let mut loaded = Vec::new();
    let g = graph(&memory, &[("book", &["strict"], true)], &mut loaded).expect("a graph");
    assert_eq!(features(&g), [("book".to_owned(), vec!["strict <- target".to_owned()])], "a weak feature activates nothing");
    assert_eq!(loaded, ["book"], "an optional requirement nobody activates is never read");
    let g = graph(&memory, &[("book", &["strict", "links"], true)], &mut Vec::new()).expect("a graph");
    let names: Vec<String> = g.nodes.iter().map(|n| n.name.as_str().to_owned()).collect();
    assert_eq!(names, ["lychee", "book"], "`dep:` activates it, and the weak feature then reaches it");
    assert_eq!(features(&g)[0].1, ["strict <- book/strict"], "through the weak feature");
}

#[test]
fn a_weak_feature_reaches_a_profile_active_by_other_means() {
    let memory = [
        profile("lychee", vec![], vec![("strict", vec![])]),
        profile("book", vec![("lychee", true, vec![])], vec![("agents", vec!["lychee?/strict"])]),
    ];
    let g = graph(&memory, &[("book", &["agents"], true)], &mut Vec::new()).expect("a graph");
    assert_eq!(g.nodes.len(), 1, "alone, it activates nothing");
    let g = graph(&memory, &[("book", &["agents"], true), ("lychee", &[], true)], &mut Vec::new()).expect("a graph");
    let lychee = g.nodes.iter().find(|n| n.name.as_str() == "lychee").expect("lychee");
    let on: Vec<String> = lychee.features.iter().map(|(f, _)| f.as_str().to_owned()).collect();
    assert_eq!(on, ["strict"], "the target's lychee takes it, whatever the order");
    assert!(lychee.required_by.is_empty(), "and is no requirement of book");
}

#[test]
fn defaults_a_requirer_turns_on_are_named() {
    let memory = [
        profile("book", vec![], vec![("default", vec!["katex"]), ("katex", vec![])]),
        profile("rust", vec![("book", false, vec![])], vec![]),
    ];
    let g = graph(&memory, &[("book", &[], false), ("rust", &[], true)], &mut Vec::new()).expect("a graph");
    assert_eq!(features(&g)[0].1, ["katex <- default"], "on, since a requirer asks");
    let warning = Warning::DefaultsOn { profile: ProfileName::new("book").unwrap(), by: ProfileName::new("rust").unwrap() };
    assert_eq!(g.warnings, [warning], "and the target hears who");
}

#[test]
fn what_cannot_hold_is_refused() {
    let memory = [
        profile("a", vec![("b", false, vec![])], vec![]),
        profile("b", vec![("a", false, vec![])], vec![]),
        profile("c", vec![("d", false, vec!["nope"])], vec![]),
        profile("d", vec![], vec![("yes", vec![])]),
    ];
    let cycle = graph(&memory, &[("a", &[], true)], &mut Vec::new()).expect_err("a cycle");
    assert!(matches!(cycle, ProfileError::Cycle { ref chain } if chain.len() == 3), "{cycle:?}");
    let unknown = graph(&memory, &[("c", &[], true)], &mut Vec::new()).expect_err("an unknown feature");
    assert!(matches!(unknown, ProfileError::UnknownFeature { ref by, .. } if by == "profile c"), "{unknown:?}");
    let unknown = graph(&memory, &[("d", &["no"], true)], &mut Vec::new()).expect_err("an unknown feature");
    assert!(matches!(unknown, ProfileError::UnknownFeature { ref by, .. } if by == "the target"), "{unknown:?}");
}

#[test]
fn an_empty_target_builds_an_empty_graph() {
    let g = match build(&Vec::new(), &Vec::new()) {
        Some(Ok(Built::Graph(g))) => g,
        _ => panic!("an empty target builds at once"),
    };
    assert!(g.nodes.is_empty() && g.warnings.is_empty());
}

#[test]
fn every_node_follows_what_it_requires() {
    let memory = vec![
        profile("ci", vec![], vec![("pages", vec![])]),
        profile("book", vec![("ci", false, vec![])], vec![]),
        profile("rust", vec![("book", false, vec![]), ("ci", false, vec!["pages"])], vec![]),
    ];
    let mut loaded = Vec::new();
    let g = graph(&memory, &[("rust", &[], true)], &mut loaded).unwrap();
    let names: Vec<&str> = g.nodes.iter().map(|n| n.name.as_str()).collect();
    for (p, node) in g.nodes.iter().enumerate() {
        for dep in &node.active {
            let q = names.iter().position(|n| *n == dep.as_str()).expect("a requirement is a node");
            assert!(q < p, "{} comes before {}", dep.as_str(), node.name.as_str());
        }
    }
    assert_eq!(names, vec!["ci", "book", "rust"]);
}

#[test]
fn the_first_layer_missing_is_asked_for() {
    let configured = vec![Configured {
        source: source(),
        name: ProfileName::new("book").unwrap(),
        features: vec![],
        defaults: true,
    }];
    match build(&configured, &Vec::new()) {
        Some(Ok(Built::Load { name, .. })) => assert_eq!(name.as_str(), "book"),
        _ => panic!("the catalog lacks book"),
    }
}
