use nailbite::{run, Expr};

#[test]
fn subtraction_folds_left() {
    assert_eq!(run("(- 10 2 3)").unwrap(), Expr::Integer(5));
}

#[test]
fn division_folds_left() {
    assert_eq!(run("(/ 20 2 2)").unwrap(), Expr::Integer(5));
}

#[test]
fn division_truncates_toward_zero() {
    assert_eq!(run("(/ 7 2)").unwrap(), Expr::Integer(3));
    assert_eq!(run("(/ (- 0 7) 2)").unwrap(), Expr::Integer(-3));
}

#[test]
fn operators_without_arguments() {
    assert_eq!(run("(+)").unwrap(), Expr::Integer(0));
    assert_eq!(run("(*)").unwrap(), Expr::Integer(1));
    assert_eq!(run("(-)").unwrap(), Expr::Integer(0));
    assert_eq!(run("(/)").unwrap(), Expr::Integer(0));
}

#[test]
fn single_argument_folds() {
    assert_eq!(run("(- 5)").unwrap(), Expr::Integer(5));
    assert_eq!(run("(/ 5)").unwrap(), Expr::Integer(5));
}

#[test]
fn addition_wraps_around() {
    assert_eq!(run("(+ 2147483647 1)").unwrap(), Expr::Integer(-2147483648));
}

#[test]
fn multiplication_wraps_around() {
    assert_eq!(run("(* 2147483647 2)").unwrap(), Expr::Integer(-2));
}

#[test]
fn smallest_quotient_wraps_around() {
    assert_eq!(
        run("(/ (- (- 0 2147483647) 1) (- 0 1))").unwrap(),
        Expr::Integer(-2147483648)
    );
}

#[test]
fn nested_operator_forms() {
    assert_eq!(run("(* (+ 1 2) (- 10 4))").unwrap(), Expr::Integer(18));
}

#[test]
fn empty_program_yields_zero() {
    assert_eq!(run("").unwrap(), Expr::Integer(0));
}

#[test]
fn define_yields_nothing() {
    assert_eq!(run("(define a 1)").unwrap(), Expr::Nothing);
}

#[test]
fn booleans_evaluate_to_themselves() {
    assert_eq!(run("#t").unwrap(), Expr::Bool(true));
    assert_eq!(run("#t #f").unwrap(), Expr::Bool(false));
}
