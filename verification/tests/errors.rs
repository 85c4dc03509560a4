use nailbite::{run, Error, EvalError, Expr};

#[test]
fn empty_application() {
    assert_eq!(run("()"), Err(Error::Eval(EvalError::EmptyApplication)));
}

#[test]
fn unbound_symbol() {
    assert_eq!(run("nope"), Err(Error::Eval(EvalError::UnboundSymbol)));
}

#[test]
fn unknown_operation() {
    assert_eq!(
        run("(unknown-op 1 2)"),
        Err(Error::Eval(EvalError::UnknownOperation))
    );
}

#[test]
fn unbound_operator_is_unknown_operation() {
    assert_eq!(
        run("(foo 1 2)"),
        Err(Error::Eval(EvalError::UnknownOperation))
    );
}

#[test]
fn not_a_procedure() {
    assert_eq!(
        run("((+ 1 1) 2)"),
        Err(Error::Eval(EvalError::NotAProcedure))
    );
}

#[test]
fn division_by_zero() {
    assert_eq!(run("(/ 5 0)"), Err(Error::Eval(EvalError::DivisionByZero)));
}

#[test]
fn wrong_argument_type_in_sum() {
    assert_eq!(
        run("(+ #t)"),
        Err(Error::Eval(EvalError::WrongArgumentType))
    );
}

#[test]
fn wrong_argument_type_in_define() {
    assert_eq!(
        run("(define 5 6)"),
        Err(Error::Eval(EvalError::WrongArgumentType))
    );
}

#[test]
fn wrong_argument_type_in_let() {
    assert_eq!(
        run("(let (5) 1)"),
        Err(Error::Eval(EvalError::WrongArgumentType))
    );
}

#[test]
fn wrong_argument_type_in_lambda() {
    assert_eq!(
        run("(lambda (5) 1)"),
        Err(Error::Eval(EvalError::WrongArgumentType))
    );
}

#[test]
fn parse_error_from_run() {
    assert_eq!(
        run("(+ 1 2"),
        Err(Error::Parse(nailbite::ParseError::UnterminatedList))
    );
}

#[test]
fn self_referential_binding_hits_depth_limit() {
    assert_eq!(
        run("(define a a) a"),
        Err(Error::Eval(EvalError::DepthLimit))
    );
}

#[test]
fn deep_nesting_hits_depth_limit() {
    let mut code = String::new();
    for _ in 0..600 {
        code.push_str("(+ 1 ");
    }
    code.push('1');
    for _ in 0..600 {
        code.push(')');
    }
    assert_eq!(run(&code), Err(Error::Eval(EvalError::DepthLimit)));
}

#[test]
fn moderate_nesting_still_evaluates() {
    let mut code = String::new();
    for _ in 0..100 {
        code.push_str("(+ 1 ");
    }
    code.push('0');
    for _ in 0..100 {
        code.push(')');
    }
    assert_eq!(run(&code), Ok(Expr::Integer(100)));
}
