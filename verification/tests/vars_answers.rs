use devset_core::vars::{Declared, Offer, VarError, VarName, VarSpec, answers, declare};

fn var(name: &str, prompt: Option<&str>, default: Option<&str>) -> (VarName, VarSpec) {
    (VarName::new(name).unwrap(), VarSpec { prompt: prompt.map(str::to_owned), default: default.map(str::to_owned) })
}

fn declared(vars: &[(VarName, VarSpec)]) -> Vec<Declared> {
    declare(&vars.to_vec())
}

#[test]
fn offers_agree_or_are_disputed() {
    let d = declared(&[var("b", None, Some("x")), var("a", Some("A?"), None), var("b", Some("B?"), Some("x")), var("c", None, Some("1")), var("c", None, Some("2"))]);
    assert_eq!(d.len(), 3);
    assert_eq!(d[0].name.as_str(), "b");
    assert_eq!(d[0].prompt.as_deref(), Some("B?"));
    assert_eq!(d[0].default, Offer::Agreed("x".to_owned()));
    assert_eq!(d[2].default, Offer::Disputed);
}

#[test]
fn every_declared_variable_is_answered() {
    let d = declared(&[var("b", None, Some("x")), var("a", Some("A?"), None)]);
    let answered = vec![(VarName::new("a").unwrap(), "1".to_owned()), (VarName::new("b").unwrap(), "2".to_owned())];
    let given = vec![VarName::new("a").unwrap(), VarName::new("b").unwrap()];
    let ok = answers(&d, &given, &answered).unwrap();
    let ok: Vec<(String, String)> = ok.iter().map(|(n, a)| (n.as_str().to_owned(), a.clone())).collect();
    assert_eq!(ok, vec![("a".to_owned(), "1".to_owned()), ("b".to_owned(), "2".to_owned())], "in name order");
    match answers(&d, &vec![], &vec![]) {
        Err(VarError::Unanswered { questions }) => {
            let asked: Vec<(&str, &str, Option<&str>)> = questions.iter().map(|q| (q.name.as_str(), q.prompt.as_str(), q.default.as_deref())).collect();
            assert_eq!(asked, vec![("a", "A?", None), ("b", "b", Some("x"))]);
            let e = VarError::Unanswered { questions };
            assert_eq!(e.to_string(), "2 variables unanswered: a and b");
        },
        other => panic!("{other:?}"),
    }
    let stray = vec![VarName::new("zz").unwrap()];
    assert!(matches!(answers(&d, &stray, &answered), Err(VarError::Unknown { .. })));
}
