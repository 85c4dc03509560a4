use nailbite::{parse, Expr, ParseError};

#[test]
fn parse_boolean_literals() {
    assert_eq!(
        parse("#t #f").unwrap(),
        Expr::Program(vec![Expr::Bool(true), Expr::Bool(false)])
    );
}

#[test]
fn parse_empty_input() {
    assert_eq!(parse("").unwrap(), Expr::Program(vec![]));
}

#[test]
fn parse_unbalanced_parentheses() {
    assert_eq!(parse(")"), Err(ParseError::UnbalancedParentheses));
}

#[test]
fn parse_unterminated_list() {
    assert_eq!(parse("(+ 1 2"), Err(ParseError::UnterminatedList));
}

#[test]
fn parse_malformed_number() {
    assert_eq!(parse("12x"), Err(ParseError::MalformedNumber));
}

#[test]
fn parse_number_at_integer_bound() {
    assert_eq!(
        parse("2147483647").unwrap(),
        Expr::Program(vec![Expr::Integer(2147483647)])
    );
    assert_eq!(parse("2147483648"), Err(ParseError::MalformedNumber));
}

#[test]
fn parse_malformed_literal() {
    assert_eq!(parse("#x"), Err(ParseError::MalformedLiteral));
}

#[test]
fn parse_dangling_literal_selector() {
    assert_eq!(parse("#"), Err(ParseError::MalformedLiteral));
}

#[test]
fn parse_hash_delimits_token() {
    assert_eq!(
        parse("a#t").unwrap(),
        Expr::Program(vec![Expr::Symbol("a".to_string()), Expr::Bool(true)])
    );
}

#[test]
fn parse_mixed_whitespace() {
    assert_eq!(
        nailbite::run("(+\t1\n2)").unwrap(),
        Expr::Integer(3)
    );
}

#[test]
fn parse_leading_minus_is_a_symbol() {
    assert_eq!(
        parse("-7").unwrap(),
        Expr::Program(vec![Expr::Symbol("-7".to_string())])
    );
}
