use nailbite::Expr;

#[test]
fn integer_accessors() {
    assert_eq!(Expr::Integer(5).to_integer(), 5);
    assert_eq!(Expr::Integer(-3).into_integer(), -3);
}

#[test]
fn boolean_accessor() {
    assert!(Expr::Bool(true).to_bool());
    assert!(!Expr::Bool(false).to_bool());
}

#[test]
fn symbol_accessor() {
    assert_eq!(Expr::Symbol("abc".to_string()).to_string(), "abc");
}

#[test]
fn list_accessor() {
    let l = Expr::List(vec![Expr::Integer(1), Expr::Nothing]);
    assert_eq!(l.to_list().len(), 2);
    assert_eq!(l.to_list()[0], Expr::Integer(1));
}

#[test]
fn deep_clone_preserves_structure() {
    let e = Expr::Program(vec![Expr::List(vec![
        Expr::Symbol("+".to_string()),
        Expr::Integer(1),
        Expr::Procedure {
            params: vec!["x".to_string()],
            expr: Box::new(Expr::Symbol("x".to_string())),
        },
    ])]);
    assert_eq!(e.deep_clone(), e);
}

#[test]
fn structural_inequality() {
    assert_ne!(Expr::Integer(1), Expr::Integer(2));
    assert_ne!(Expr::Integer(1), Expr::Bool(true));
    assert_ne!(
        Expr::List(vec![Expr::Integer(1)]),
        Expr::List(vec![Expr::Integer(1), Expr::Integer(1)])
    );
}
