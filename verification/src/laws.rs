//! Laws of the evaluator, stated and proved once for all inputs.
use crate::eval::apply_arith;
use crate::eval::eval_args_spec;
use crate::eval::eval_form_spec;
use crate::eval::eval_spec;
use crate::eval::is_arith_op;
use crate::eval::EnvV;
use crate::eval::EvalError;
use crate::expression::ExprV;
use vstd::prelude::*;

verus! {

/// An expression built solely from the four primitive operators and
/// integer literals.
pub open spec fn arith_expr(e: ExprV) -> bool
    decreases e, 0int,
{
    match e {
        ExprV::Integer(_) => true,
        ExprV::List(es) => es.len() >= 1 && (es[0] matches ExprV::Symbol(op) && is_arith_op(op))
            && arith_list(es, 1),
        _ => false,
    }
}

/// Every element of `es` from `i` on is an arithmetic expression.
pub open spec fn arith_list(es: Seq<ExprV>, i: int) -> bool
    decreases es, es.len() - i,
{
    if i < 0 || i >= es.len() {
        true
    } else {
        arith_expr(es[i]) && arith_list(es, i + 1)
    }
}

/// The value an arithmetic expression denotes: an integer literal is
/// itself; a form is the defined left-to-right fold of its operator
/// over the recursively evaluated arguments.
pub open spec fn arith_val(e: ExprV) -> Result<int, EvalError>
    recommends
        arith_expr(e),
    decreases e, 0int,
{
    match e {
        ExprV::Integer(i) => Ok(i),
        ExprV::List(es) => match arith_vals(es, 1) {
            Ok(vs) => apply_arith(es[0]->Symbol_0, vs),
            Err(er) => Err(er),
        },
        _ => Err(EvalError::WrongArgumentType),
    }
}

/// The values of the arithmetic expressions `es[i..]`, or the first
/// failure among them, left to right.
pub open spec fn arith_vals(es: Seq<ExprV>, i: int) -> Result<Seq<int>, EvalError>
    decreases es, es.len() - i,
{
    if i < 0 || i >= es.len() {
        Ok(Seq::empty())
    } else {
        match arith_val(es[i]) {
            Err(e) => Err(e),
            Ok(v) => match arith_vals(es, i + 1) {
                Err(e) => Err(e),
                Ok(rest) => Ok(seq![v] + rest),
            },
        }
    }
}

/// How many nodes an expression has; a bound on the depth budget that
/// evaluating it can consume.
pub open spec fn size(e: ExprV) -> nat
    decreases e, 0int,
{
    match e {
        ExprV::List(es) => 1 + size_list(es, 0),
        ExprV::Program(es) => 1 + size_list(es, 0),
        _ => 1,
    }
}

/// The combined size of the expressions `es[i..]`.
pub open spec fn size_list(es: Seq<ExprV>, i: int) -> nat
    decreases es, es.len() - i,
{
    if i < 0 || i >= es.len() {
        0
    } else {
        size(es[i]) + size_list(es, i + 1)
    }
}

/// For any expression built solely from `+ * - /` and integer
/// literals, and any depth budget of at least twice its size,
/// evaluation returns exactly the defined left-to-right fold over the
/// recursively evaluated arguments — failing exactly where the fold
/// divides by zero — and leaves every environment untouched.
pub proof fn lemma_arith_eval(fuel: nat, env: EnvV, e: ExprV)
    requires
        arith_expr(e),
        fuel >= 2 * size(e),
    ensures
        eval_spec(fuel, env, e).env == env,
        eval_spec(fuel, env, e).res == (match arith_val(e) {
            Ok(n) => Ok::<ExprV, EvalError>(ExprV::Integer(n)),
            Err(er) => Err::<ExprV, EvalError>(er),
        }),
    decreases e, 0int,
{
    match e {
        ExprV::Integer(_) => {},
        ExprV::List(es) => {
            proof_strlits();
            let op = es[0]->Symbol_0;
            assert(size(e) == 1 + size_list(es, 0));
            assert(size_list(es, 0) == size(es[0]) + size_list(es, 1));
            assert(size(es[0]) == 1);
            let f = (fuel - 1) as nat;
            let f2 = (f - 1) as nat;
            assert(es.drop_first() =~= es.skip(1));
            assert(eval_spec(fuel, env, e) == eval_form_spec(f, env, op, es.skip(1)));
            assert(op != "define"@ && op != "let"@ && op != "lambda"@);
            lemma_arith_args(f2, env, es, 1, Seq::empty());
            let ao = eval_args_spec(f2, env, es.skip(1), Seq::empty());
            match arith_vals(es, 1) {
                Ok(vs) => {
                    assert(Seq::<int>::empty() + vs =~= vs);
                    assert(ao.0 == Ok::<Seq<int>, EvalError>(vs));
                },
                Err(_) => {},
            }
        },
        _ => {},
    }
}

/// As `lemma_arith_eval`, for the argument expressions `es[i..]` of an
/// arithmetic form: their evaluation appends their values to the
/// accumulator, or stops at the first failure, and never touches the
/// environment.
pub proof fn lemma_arith_args(fuel: nat, env: EnvV, es: Seq<ExprV>, i: int, acc: Seq<int>)
    requires
        0 <= i <= es.len(),
        arith_list(es, i),
        fuel >= 2 * size_list(es, i),
    ensures
        eval_args_spec(fuel, env, es.skip(i), acc).1 == env,
        eval_args_spec(fuel, env, es.skip(i), acc).0 == (match arith_vals(es, i) {
            Ok(vs) => Ok::<Seq<int>, EvalError>(acc + vs),
            Err(er) => Err::<Seq<int>, EvalError>(er),
        }),
    decreases es, es.len() - i,
{
    if i == es.len() {
        assert(es.skip(i) =~= Seq::<ExprV>::empty());
        assert(acc + Seq::<int>::empty() =~= acc);
    } else {
        assert(es.skip(i)[0] == es[i]);
        assert(es.skip(i).drop_first() =~= es.skip(i + 1));
        assert(size_list(es, i) == size(es[i]) + size_list(es, i + 1));
        lemma_arith_eval(fuel, env, es[i]);
        match arith_val(es[i]) {
            Err(_) => {},
            Ok(v) => {
                lemma_arith_args(fuel, env, es, i + 1, acc.push(v));
                match arith_vals(es, i + 1) {
                    Err(_) => {},
                    Ok(rest) => {
                        assert(acc.push(v) + rest =~= acc + (seq![v] + rest));
                    },
                }
            },
        }
    }
}

/// The names of the special forms and the primitive operators are
/// pairwise distinct pieces of text.
proof fn proof_strlits()
    ensures
        "define"@ != "+"@ && "define"@ != "*"@ && "define"@ != "-"@ && "define"@ != "/"@,
        "let"@ != "+"@ && "let"@ != "*"@ && "let"@ != "-"@ && "let"@ != "/"@,
        "lambda"@ != "+"@ && "lambda"@ != "*"@ && "lambda"@ != "-"@ && "lambda"@ != "/"@,
{
    broadcast use vstd::string::group_string_axioms;

    reveal_strlit("define");
    reveal_strlit("let");
    reveal_strlit("lambda");
    reveal_strlit("+");
    reveal_strlit("*");
    reveal_strlit("-");
    reveal_strlit("/");
    assert("define"@.len() == 6);
    assert("let"@.len() == 3);
    assert("lambda"@.len() == 6);
    assert("+"@.len() == 1);
    assert("*"@.len() == 1);
    assert("-"@.len() == 1);
    assert("/"@.len() == 1);
}

} // verus!
