use nailbite::{parse, Env, Expr};

#[test]
fn test_simple_no_nesting() {
    let code = "(+ 1 2 3)";
    let ast = parse(code).unwrap();
    assert_eq!(
        ast,
        Expr::Program(vec![Expr::List(vec![
            Expr::Symbol("+".to_string()),
            Expr::Integer(1),
            Expr::Integer(2),
            Expr::Integer(3)
        ])])
    );
    let mut env = Env::new();
    let result = env.eval(&ast).unwrap();
    assert_eq!(result, Expr::Integer(6));
}

#[test]
fn test_simple_nesting() {
    let code = "(* 3 (+ 2 1))";
    let ast = parse(code).unwrap();
    assert_eq!(
        ast,
        Expr::Program(vec![Expr::List(vec![
            Expr::Symbol("*".to_string()),
            Expr::Integer(3),
            Expr::List(vec![Expr::Symbol("+".to_string()), Expr::Integer(2), Expr::Integer(1)])
        ])])
    );
    let mut env = Env::new();
    let result = env.eval(&ast).unwrap();
    assert_eq!(result, Expr::Integer(9));
}

#[test]
fn test_symbols() {
    let code = "(define a 7)(* a a)";
    let ast = parse(code).unwrap();
    let mut env = Env::new();
    let result = env.eval(&ast).unwrap();
    assert_eq!(result, Expr::Integer(49));
}

#[test]
fn test_lambda() {
    assert_eq!(
        nailbite::run("((lambda (x) (* x x)) 3 3)").unwrap(),
        Expr::Integer(9)
    );
}

#[test]
fn test_local_scope() {
    assert_eq!(
        nailbite::run("(let ((a 7)) (* a a))").unwrap(),
        Expr::Integer(49)
    );
}

#[test]
fn lambda_exact_arity() {
    assert_eq!(
        nailbite::run("((lambda (x) (* x x)) 3)").unwrap(),
        Expr::Integer(9)
    );
}
