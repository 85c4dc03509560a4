//! A small interpreter for a parenthesized, Lisp-like expression language.
//!
//! Source text is parsed into a syntax tree of [`Expr`] values and evaluated
//! against a mutable stack of scopes, an [`Env`].  The same tagged union
//! serves as syntax-tree node and as runtime value.
use vstd::prelude::*;

mod eval;
mod expression;
mod laws;
mod parsing;

pub use expression::Expr;
pub use expression::ExprV;
pub use expression::view_exprs;
pub use expression::view_strings;
pub use parsing::parse;
pub use parsing::parse_spec;
pub use parsing::ParseError;
pub use eval::env_init;
pub use eval::eval_spec;
pub use eval::Env;
pub use eval::EvalError;
pub use eval::EVAL_DEPTH;
pub use eval::lemma_eval_env_len;
pub use laws::arith_expr;
pub use laws::arith_val;
pub use laws::lemma_arith_eval;

verus! {

/// An error from either phase of running a source text.
#[derive(Debug, PartialEq, Eq, Structural, Clone, Copy)]
pub enum Error {
    /// The text could not be parsed.
    Parse(ParseError),
    /// The parsed program could not be evaluated.
    Eval(EvalError),
}

/// What running a source text against an environment yields: the text
/// is parsed, and the program evaluated with the standard depth
/// budget.
pub open spec fn run_spec(env: eval::EnvV, s: Seq<char>) -> (Result<ExprV, Error>, eval::EnvV) {
    match parse_spec(s) {
        Err(p) => (Err(Error::Parse(p)), env),
        Ok(ast) => {
            let o = eval_spec(EVAL_DEPTH as nat, env, ast);
            match o.res {
                Ok(v) => (Ok(v), o.env),
                Err(e) => (Err(Error::Eval(e)), o.env),
            }
        },
    }
}

/// Parse a source text and evaluate it against an existing
/// environment, so that top-level `define`s persist across calls.
pub fn run_with_env(env: &mut Env, code: &str) -> (r: Result<Expr, Error>)
    ensures
        final(env)@ == run_spec(old(env)@, code@).1,
        (match r {
            Ok(e) => run_spec(old(env)@, code@).0 == Ok::<ExprV, Error>(e@),
            Err(er) => run_spec(old(env)@, code@).0 == Err::<ExprV, Error>(er),
        }),
        final(env)@.len() == old(env)@.len(),
        forall|i: int| 0 <= i < old(env)@.len() - 1 ==> #[trigger] final(env)@[i] == old(env)@[i],
{
    match parse(code) {
        Err(p) => Err(Error::Parse(p)),
        Ok(ast) => match env.eval(&ast) {
            Ok(v) => Ok(v),
            Err(e) => Err(Error::Eval(e)),
        },
    }
}

/// Parse a source text and evaluate it against a fresh environment.
pub fn run(code: &str) -> (r: Result<Expr, Error>)
    ensures
        (match r {
            Ok(e) => run_spec(env_init(), code@).0 == Ok::<ExprV, Error>(e@),
            Err(er) => run_spec(env_init(), code@).0 == Err::<ExprV, Error>(er),
        }),
{
    let mut env = Env::new();
    run_with_env(&mut env, code)
}

} // verus!
