use devset_core::path::RelPath;
use devset_core::template::{Context, LayerContext, RenderError, render, text};
use devset_core::vars::{VarError, VarName};

fn context() -> Context {
    Context {
        target: "repo".to_owned(),
        profiles: vec!["base".to_owned()],
        layers: vec![LayerContext {
            profile: "base".to_owned(),
            source: "house".to_owned(),
            features: vec!["docs".to_owned()],
            configured: true,
        }],
    }
}

fn answers() -> Vec<(VarName, String)> {
    vec![(VarName::new("author").unwrap(), "Ann".to_owned())]
}

#[test]
fn templates_see_answers_and_the_graph() {
    let vars = context().vars("base", &answers());
    assert_eq!(
        vars,
        r#"{"author":"Ann","devset":{"target":"repo","profiles":["base"],"layers":[{"profile":"base","source":"house","features":["docs"],"configured":true}],"features":["docs"]}}"#
    );
    let other = context().vars("other", &Vec::new());
    assert!(other.ends_with(r#""features":[]}}"#), "{other}");
    let name = RelPath::new("a.txt").unwrap();
    let source = "Hi {{ author }} in {{ devset.target }} with {{ devset.features[0] }}\n";
    let out = render(&name, source, "p/files/a.txt", &vars, &answers()).unwrap();
    assert_eq!(out, "Hi Ann in repo with docs\n", "a trailing newline is kept");
    let looped = render(&name, "{% for i in range(2) %}{{ i }}{% endfor %}", "f", &vars, &answers()).unwrap();
    assert_eq!(looped, "01", "globals are known");
    let raw = render(&name, "{{ '<b>' }}", "f", &vars, &answers()).unwrap();
    assert_eq!(raw, "<b>", "nothing is escaped");
}

#[test]
fn a_template_is_refused_for_what_nothing_declares() {
    let name = RelPath::new("a.txt").unwrap();
    let vars = context().vars("base", &answers());
    let refused = render(&name, "{{ zed }}{{ abc }}{{ author }}", "f", &vars, &answers());
    let Err(RenderError::Var(e @ VarError::Undeclared { .. })) = refused else { panic!("{refused:?}") };
    assert_eq!(e.to_string(), "template a.txt uses `abc`, which no profile declares", "the least such name");
    let broken = render(&name, "{{ author ", "p/files/a.txt", &vars, &answers());
    let Err(RenderError::Parse(e)) = broken else { panic!("{broken:?}") };
    assert_eq!((e.file.as_str(), e.text.as_str()), ("p/files/a.txt", "{{ author "));
    let failed = render(&name, "{{ author.x.y }}", "f", &vars, &answers());
    assert!(matches!(failed, Err(RenderError::Parse(_))), "an undefined value is refused");
}

#[test]
fn paths_without_braces_are_left_alone() {
    let vars = context().vars("base", &answers());
    assert_eq!(text("docs/readme.md", "m", &vars, &answers()).unwrap(), "docs/readme.md");
    assert_eq!(text("docs/{{ author }}.md", "m", &vars, &answers()).unwrap(), "docs/Ann.md");
}
