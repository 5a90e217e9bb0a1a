use devset_core::vars::{VarError, VarName};

#[test]
fn names_are_identifiers() {
    for name in ["author", "_x", "target_cpu2"] {
        assert!(VarName::new(name).is_ok(), "{name} is valid");
    }
    for name in ["", "2x", "a-b", "a.b", "é", "devset"] {
        assert!(VarName::new(name).is_err(), "{name:?} is invalid");
    }
}

#[test]
fn devset_is_reserved() {
    assert!(matches!(VarName::new("devset"), Err(VarError::Reserved)));
    assert!(matches!(VarName::new("2x"), Err(VarError::Name { .. })));
    assert_eq!(VarName::new("author").unwrap().as_str(), "author");
}
