use nailbite::{run, run_with_env, Env, Error, EvalError, Expr};

#[test]
fn define_persists_across_runs() {
    let mut env = Env::new();
    assert_eq!(run_with_env(&mut env, "(define a 7)").unwrap(), Expr::Nothing);
    assert_eq!(run_with_env(&mut env, "(* a a)").unwrap(), Expr::Integer(49));
}

#[test]
fn let_scope_does_not_leak() {
    let mut env = Env::new();
    assert_eq!(
        run_with_env(&mut env, "(let ((a 7)) (* a a))").unwrap(),
        Expr::Integer(49)
    );
    assert_eq!(
        run_with_env(&mut env, "a"),
        Err(Error::Eval(EvalError::UnboundSymbol))
    );
}

#[test]
fn let_bindings_use_enclosing_scope() {
    assert_eq!(
        run("(let ((a 1) (b a)) b)"),
        Err(Error::Eval(EvalError::UnboundSymbol))
    );
}

#[test]
fn let_shadows_and_restores() {
    assert_eq!(
        run("(define a 1)(let ((a 2)) a)").unwrap(),
        Expr::Integer(2)
    );
    assert_eq!(
        run("(define a 1)(let ((a 2)) a) a").unwrap(),
        Expr::Integer(1)
    );
}

#[test]
fn define_stores_value_expression_verbatim() {
    assert_eq!(run("(define a (+ 1 2)) a").unwrap(), Expr::Integer(3));
}

#[test]
fn symbols_resolve_transitively() {
    assert_eq!(run("(define a 7)(define b a) b").unwrap(), Expr::Integer(7));
}

#[test]
fn procedures_see_the_callers_bindings() {
    assert_eq!(
        run("(define y 2) ((lambda (x) (* x y)) 3)").unwrap(),
        Expr::Integer(6)
    );
}

#[test]
fn environment_methods_scope_correctly() {
    let mut env = Env::new();
    env.define("x".to_string(), Expr::Integer(1));
    assert_eq!(env.lookup("x"), Some(&Expr::Integer(1)));
    assert_eq!(env.lookup("y"), None);
    env.begin_scope();
    env.define("x".to_string(), Expr::Integer(2));
    assert_eq!(env.lookup("x"), Some(&Expr::Integer(2)));
    env.end_scope();
    assert_eq!(env.lookup("x"), Some(&Expr::Integer(1)));
    env.end_scope();
    assert_eq!(env.lookup("x"), Some(&Expr::Integer(1)));
}
