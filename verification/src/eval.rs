//! The evaluator: an environment of nested scopes, and the recursive
//! reduction of expressions against it.
use crate::expression::lemma_view_exprs;
use crate::expression::str_eq;
use crate::expression::view_exprs;
use crate::expression::view_strings;
use crate::expression::Expr;
use crate::expression::ExprV;
use vstd::prelude::*;

verus! {

/// Why an evaluation failed.
#[derive(Debug, PartialEq, Eq, Structural, Clone, Copy)]
pub enum EvalError {
    /// An empty `()` form in operator position.
    EmptyApplication,
    /// A symbol with no binding in any scope.
    UnboundSymbol,
    /// A symbol in operator position that names no special form and no
    /// primitive operator.
    UnknownOperation,
    /// An operator form that evaluated to something other than a
    /// procedure.
    NotAProcedure,
    /// A value of the wrong shape where a symbol, list or integer was
    /// required.
    WrongArgumentType,
    /// Integer division by zero.
    DivisionByZero,
    /// Evaluation nested deeper than the evaluator's fixed depth
    /// budget.
    DepthLimit,
}

/// The abstract environment: a stack of scopes, innermost last, each a
/// mapping from names to bound expressions.
pub type EnvV = Seq<Map<Seq<char>, ExprV>>;

/// The mapping an association list denotes: later entries overwrite
/// earlier ones.
pub open spec fn scope_view(s: Seq<(String, Expr)>) -> Map<Seq<char>, ExprV>
    decreases s.len(),
{
    if s.len() == 0 {
        Map::empty()
    } else {
        scope_view(s.drop_last()).insert(s.last().0@, s.last().1@)
    }
}

/// The views of a stack of scopes, scope by scope.
pub open spec fn view_scopes(s: Seq<Vec<(String, Expr)>>) -> EnvV
    decreases s,
{
    if s.len() == 0 {
        Seq::empty()
    } else {
        view_scopes(s.drop_last()).push(scope_view(s.last()@))
    }
}

/// `view_scopes` indexes pointwise.
pub broadcast proof fn lemma_view_scopes(s: Seq<Vec<(String, Expr)>>)
    ensures
        (#[trigger] view_scopes(s)).len() == s.len(),
        forall|i: int| 0 <= i < s.len() ==> #[trigger] view_scopes(s)[i] == scope_view(s[i]@),
    decreases s.len(),
{
    if s.len() > 0 {
        lemma_view_scopes(s.drop_last());
        assert(view_scopes(s) == view_scopes(s.drop_last()).push(scope_view(s.last()@)));
        assert forall|i: int| 0 <= i < s.len() implies view_scopes(s)[i] == scope_view(s[i]@) by {
            if i < s.len() - 1 {
                assert(s.drop_last()[i] == s[i]);
                assert(view_scopes(s)[i] == view_scopes(s.drop_last())[i]);
            } else {
                assert(s[i] == s.last());
            }
        }
    }
}

/// A fresh environment: exactly one empty global scope.
pub open spec fn env_init() -> EnvV {
    seq![Map::<Seq<char>, ExprV>::empty()]
}

/// Name resolution: scan scopes innermost to outermost; the first
/// scope that binds the name wins.
pub open spec fn lookup_in(env: EnvV, name: Seq<char>) -> Option<ExprV>
    decreases env.len(),
{
    if env.len() == 0 {
        None
    } else if env.last().contains_key(name) {
        Some(env.last()[name])
    } else {
        lookup_in(env.drop_last(), name)
    }
}

/// Binding: insert or overwrite in the innermost scope only.
pub open spec fn define_in(env: EnvV, name: Seq<char>, value: ExprV) -> EnvV {
    env.update(env.len() - 1, env.last().insert(name, value))
}

/// The ordered stack of scopes that `define`, `lookup` and the
/// evaluator work against.  The global scope always exists; `let` and
/// procedure application push one local scope for their extent.
pub struct Env {
    globals: Vec<(String, Expr)>,
    locals: Vec<Vec<(String, Expr)>>,
}

impl View for Env {
    type V = EnvV;

    closed spec fn view(&self) -> EnvV {
        seq![scope_view(self.globals@)] + view_scopes(self.locals@)
    }
}

/// Look a name up in one scope: the latest entry with that name wins.
fn scope_get<'a>(scope: &'a Vec<(String, Expr)>, symbol: &str) -> (r: Option<&'a Expr>)
    ensures
        match r {
            Some(e) => scope_view(scope@).contains_key(symbol@) && e@ == scope_view(
                scope@,
            )[symbol@],
            None => !scope_view(scope@).contains_key(symbol@),
        },
{
    let mut j = scope.len();
    proof {
        assert(scope@.take(scope.len() as int) =~= scope@);
    }
    while j > 0
        invariant
            j <= scope.len(),
            scope_view(scope@).contains_key(symbol@) == scope_view(
                scope@.take(j as int),
            ).contains_key(symbol@),
            scope_view(scope@).contains_key(symbol@) ==> scope_view(scope@)[symbol@]
                == scope_view(scope@.take(j as int))[symbol@],
        decreases j,
    {
        proof {
            assert(scope@.take(j as int).drop_last() =~= scope@.take(j - 1));
            assert(scope@.take(j as int).last() == scope@[j - 1]);
        }
        let entry = &scope[j - 1];
        if str_eq(entry.0.as_str(), symbol) {
            return Some(&entry.1);
        }
        j = j - 1;
    }
    proof {
        assert(scope@.take(0) =~= Seq::<(String, Expr)>::empty());
    }
    None
}

/// Looking up in a one-scope environment consults that scope alone.
proof fn lemma_lookup_single(env: EnvV, name: Seq<char>)
    requires
        env.len() == 1,
    ensures
        lookup_in(env, name) == (if env[0].contains_key(name) {
            Some(env[0][name])
        } else {
            None::<ExprV>
        }),
{
    assert(env.last() == env[0]);
    assert(env.drop_last() =~= Seq::<Map<Seq<char>, ExprV>>::empty());
    assert(lookup_in(env.drop_last(), name) is None);
}

impl Env {
    /// A fresh environment with exactly one empty global scope.
    pub fn new() -> (r: Env)
        ensures
            r@ == env_init(),
    {
        let r = Env { globals: Vec::new(), locals: Vec::new() };
        proof {
            broadcast use lemma_view_scopes;

            assert(r@ =~= env_init());
        }
        r
    }

    /// Resolve a name by scanning scopes innermost to outermost.
    pub fn lookup(&self, symbol: &str) -> (r: Option<&Expr>)
        ensures
            match lookup_in(self@, symbol@) {
                Some(v) => r matches Some(e) && e@ == v,
                None => r is None,
            },
    {
        proof {
            broadcast use lemma_view_scopes;

            assert(self@.take(self@.len() as int) =~= self@);
        }
        let mut k = self.locals.len();
        while k > 0
            invariant
                k <= self.locals.len(),
                lookup_in(self@, symbol@) == lookup_in(self@.take(k + 1), symbol@),
            decreases k,
        {
            proof {
                broadcast use lemma_view_scopes;

                assert(self@.take(k + 1).drop_last() =~= self@.take(k as int));
                assert(self@.take(k + 1).last() == self@[k as int]);
                assert(self@[k as int] == scope_view(self.locals@[k - 1]@));
            }
            match scope_get(&self.locals[k - 1], symbol) {
                Some(e) => {
                    return Some(e);
                },
                None => {},
            }
            k = k - 1;
        }
        proof {
            broadcast use lemma_view_scopes;

            assert(self@.take(1).last() == self@[0]);
            assert(self@[0] == scope_view(self.globals@));
            lemma_lookup_single(self@.take(1), symbol@);
        }
        match scope_get(&self.globals, symbol) {
            Some(e) => Some(e),
            None => None,
        }
    }

    /// Insert or overwrite a binding in the innermost scope.
    pub fn define(&mut self, symbol: String, value: Expr)
        ensures
            final(self)@ == define_in(old(self)@, symbol@, value@),
    {
        proof {
            broadcast use lemma_view_scopes;

        }
        let ghost env0 = self@;
        let ghost name = symbol@;
        let ghost bound = value@;
        if self.locals.len() == 0 {
            let ghost g0 = self.globals@;
            self.globals.push((symbol, value));
            proof {
                broadcast use lemma_view_scopes;

                assert(self.globals@.drop_last() =~= g0);
                assert(scope_view(self.globals@) == scope_view(g0).insert(name, bound));
                assert(self@ =~= define_in(env0, name, bound));
            }
        } else {
            let last = self.locals.len() - 1;
            match self.locals.pop() {
                Some(mut scope) => {
                    let ghost s0 = scope@;
                    scope.push((symbol, value));
                    proof {
                        assert(scope@.drop_last() =~= s0);
                        assert(scope_view(scope@) == scope_view(s0).insert(name, bound));
                    }
                    self.locals.push(scope);
                    proof {
                        broadcast use lemma_view_scopes;

                        assert(self@ =~= define_in(env0, name, bound));
                    }
                },
                None => {
                    proof {
                        assert(false);
                    }
                },
            }
        }
    }

    /// Open a new innermost scope.
    pub fn begin_scope(&mut self)
        ensures
            final(self)@ == old(self)@.push(Map::<Seq<char>, ExprV>::empty()),
    {
        let ghost env0 = self@;
        self.locals.push(Vec::new());
        proof {
            broadcast use lemma_view_scopes;

            assert(self.locals@.drop_last() =~= old(self).locals@);
            assert(scope_view(Seq::<(String, Expr)>::empty()) == Map::<Seq<char>, ExprV>::empty());
            assert(self@ =~= env0.push(Map::<Seq<char>, ExprV>::empty()));
        }
    }

    /// Close the innermost scope; the global scope is never closed.
    pub fn end_scope(&mut self)
        ensures
            old(self)@.len() > 1 ==> final(self)@ == old(self)@.drop_last(),
            old(self)@.len() == 1 ==> final(self)@ == old(self)@,
    {
        proof {
            broadcast use lemma_view_scopes;

        }
        let ghost env0 = self@;
        if self.locals.len() > 0 {
            let ghost l0 = self.locals@;
            match self.locals.pop() {
                Some(_) => {
                    proof {
                        broadcast use lemma_view_scopes;

                        assert(self.locals@ =~= l0.drop_last());
                        assert(self@ =~= env0.drop_last());
                    }
                },
                None => {
                    proof {
                        assert(false);
                    }
                },
            }
        }
    }
}

impl Default for Env {
    /// A fresh environment, as [`Env::new`] builds it.
    fn default() -> (r: Env)
        ensures
            r@ == env_init(),
    {
        Env::new()
    }
}


/// The outcome of one evaluation: the result or the failure, and the
/// environment as the evaluation left it.
#[verifier::ext_equal]
pub struct EvalOutcome {
    pub res: Result<ExprV, EvalError>,
    pub env: EnvV,
}

/// How deep evaluation may nest before it fails with `DepthLimit`.
pub const EVAL_DEPTH: u64 = 1024;

/// Addition that wraps around the 32-bit signed range.
pub open spec fn wadd32(a: int, b: int) -> int {
    if a + b > i32::MAX {
        a + b - 0x1_0000_0000
    } else if a + b < i32::MIN {
        a + b + 0x1_0000_0000
    } else {
        a + b
    }
}

/// Subtraction that wraps around the 32-bit signed range.
pub open spec fn wsub32(a: int, b: int) -> int {
    if a - b > i32::MAX {
        a - b - 0x1_0000_0000
    } else if a - b < i32::MIN {
        a - b + 0x1_0000_0000
    } else {
        a - b
    }
}

/// Multiplication that wraps around the 32-bit signed range.
pub open spec fn wmul32(a: int, b: int) -> int {
    vstd::wrapping::i32_specs::signed_crop(a * b) as int
}

/// Division truncating toward zero, written over non-negative
/// quotients.
pub open spec fn tdiv32(a: int, d: int) -> int {
    if a == 0 {
        0
    } else if a > 0 && d > 0 {
        a / d
    } else if a < 0 && d < 0 {
        (a * -1) / (d * -1)
    } else if a < 0 {
        ((a * -1) / d) * -1
    } else {
        (a / (d * -1)) * -1
    }
}

/// Division as the evaluator performs it: truncating toward zero; the
/// one overflowing quotient wraps back to the smallest value.
pub open spec fn wdiv32(a: int, b: int) -> int
    recommends
        b != 0,
{
    if a == i32::MIN && b == -1 {
        i32::MIN as int
    } else {
        tdiv32(a, b)
    }
}

/// The four primitive operators.
pub open spec fn is_arith_op(name: Seq<char>) -> bool {
    name == "+"@ || name == "*"@ || name == "-"@ || name == "/"@
}

/// The left-to-right fold of one operator over the values that follow
/// the accumulator.
pub open spec fn fold_arith(op: Seq<char>, acc: int, rest: Seq<int>) -> Result<int, EvalError>
    recommends
        is_arith_op(op),
    decreases rest.len(),
{
    if rest.len() == 0 {
        Ok(acc)
    } else if op == "+"@ {
        fold_arith(op, wadd32(acc, rest[0]), rest.drop_first())
    } else if op == "*"@ {
        fold_arith(op, wmul32(acc, rest[0]), rest.drop_first())
    } else if op == "-"@ {
        fold_arith(op, wsub32(acc, rest[0]), rest.drop_first())
    } else if rest[0] == 0 {
        Err(EvalError::DivisionByZero)
    } else {
        fold_arith(op, wdiv32(acc, rest[0]), rest.drop_first())
    }
}

/// What an operator form yields from its evaluated argument values:
/// `+` sums from 0, `*` multiplies from 1; `-` and `/` fold pairwise
/// from the first value and yield 0 with no arguments.
pub open spec fn apply_arith(op: Seq<char>, vals: Seq<int>) -> Result<int, EvalError>
    recommends
        is_arith_op(op),
{
    if op == "+"@ {
        fold_arith(op, 0, vals)
    } else if op == "*"@ {
        fold_arith(op, 1, vals)
    } else if vals.len() == 0 {
        Ok(0)
    } else {
        fold_arith(op, vals[0], vals.drop_first())
    }
}

/// Every element is a symbol.
pub open spec fn all_symbols(ps: Seq<ExprV>) -> bool {
    forall|i: int| 0 <= i < ps.len() ==> (#[trigger] ps[i]) is Symbol
}

/// The names carried by a sequence of symbols.
pub open spec fn symbol_names(ps: Seq<ExprV>) -> Seq<Seq<char>>
    decreases ps.len(),
{
    if ps.len() == 0 {
        Seq::empty()
    } else {
        symbol_names(ps.drop_last()).push(ps.last()->Symbol_0)
    }
}

/// `symbol_names` indexes pointwise.
pub broadcast proof fn lemma_symbol_names(ps: Seq<ExprV>)
    ensures
        (#[trigger] symbol_names(ps)).len() == ps.len(),
        forall|i: int| 0 <= i < ps.len() ==> #[trigger] symbol_names(ps)[i] == ps[i]->Symbol_0,
    decreases ps.len(),
{
    if ps.len() > 0 {
        lemma_symbol_names(ps.drop_last());
        assert(symbol_names(ps) == symbol_names(ps.drop_last()).push(ps.last()->Symbol_0));
        assert forall|i: int| 0 <= i < ps.len() implies symbol_names(ps)[i] == ps[i]->Symbol_0 by {
            if i < ps.len() - 1 {
                assert(ps.drop_last()[i] == ps[i]);
                assert(symbol_names(ps)[i] == symbol_names(ps.drop_last())[i]);
            } else {
                assert(ps[i] == ps.last());
            }
        }
    }
}

/// One scope holding the given bindings, later pairs overwriting
/// earlier ones of the same name.
pub open spec fn scope_of_pairs(pairs: Seq<(Seq<char>, ExprV)>) -> Map<Seq<char>, ExprV>
    decreases pairs.len(),
{
    if pairs.len() == 0 {
        Map::empty()
    } else {
        scope_of_pairs(pairs.drop_last()).insert(pairs.last().0, pairs.last().1)
    }
}

/// One scope binding the first `k` parameter names positionally to the
/// first `k` values.
pub open spec fn scope_of_params(params: Seq<Seq<char>>, vals: Seq<ExprV>, k: int) -> Map<
    Seq<char>,
    ExprV,
>
    decreases k,
{
    if k <= 0 {
        Map::empty()
    } else {
        scope_of_params(params, vals, k - 1).insert(params[k - 1], vals[k - 1])
    }
}

/// How many parameters an application binds: index-matched, surplus
/// values ignored, surplus names left unbound.
pub open spec fn bind_count(params: Seq<Seq<char>>, vals: Seq<ExprV>) -> int {
    if params.len() <= vals.len() {
        params.len() as int
    } else {
        vals.len() as int
    }
}

/// Reduce one expression against an environment, with a depth budget.
///
/// Atoms evaluate to themselves; a symbol's binding is itself
/// evaluated; a `Program` evaluates its forms in order and keeps the
/// last result; a compound form dispatches on its operator.
pub open spec fn eval_spec(fuel: nat, env: EnvV, e: ExprV) -> EvalOutcome
    decreases fuel, 0int,
{
    if fuel == 0 {
        EvalOutcome { res: Err(EvalError::DepthLimit), env }
    } else {
        let f = (fuel - 1) as nat;
        match e {
            ExprV::Bool(_) => EvalOutcome { res: Ok(e), env },
            ExprV::Integer(_) => EvalOutcome { res: Ok(e), env },
            ExprV::Nothing => EvalOutcome { res: Ok(e), env },
            ExprV::Procedure { .. } => EvalOutcome { res: Ok(e), env },
            ExprV::Symbol(name) => match lookup_in(env, name) {
                None => EvalOutcome { res: Err(EvalError::UnboundSymbol), env },
                Some(bound) => eval_spec(f, env, bound),
            },
            ExprV::Program(es) => eval_seq_spec(f, env, es, ExprV::Integer(0)),
            ExprV::List(es) => {
                if es.len() == 0 {
                    EvalOutcome { res: Err(EvalError::EmptyApplication), env }
                } else {
                    match es[0] {
                        ExprV::Symbol(opname) => eval_form_spec(f, env, opname, es.drop_first()),
                        _ => eval_apply_spec(f, env, es[0], es.drop_first()),
                    }
                }
            },
        }
    }
}

/// Evaluate forms in order against one environment; the last result
/// wins, `acc` standing in for the result of an empty sequence.
pub open spec fn eval_seq_spec(fuel: nat, env: EnvV, es: Seq<ExprV>, acc: ExprV) -> EvalOutcome
    decreases fuel, es.len() + 1,
{
    if es.len() == 0 {
        EvalOutcome { res: Ok(acc), env }
    } else {
        let o = eval_spec(fuel, env, es[0]);
        match o.res {
            Err(e) => EvalOutcome { res: Err(e), env: o.env },
            Ok(v) => eval_seq_spec(fuel, o.env, es.drop_first(), v),
        }
    }
}

/// Evaluate operator arguments left to right, each converted to an
/// integer as it arrives.
pub open spec fn eval_args_spec(fuel: nat, env: EnvV, es: Seq<ExprV>, acc: Seq<int>) -> (Result<
    Seq<int>,
    EvalError,
>, EnvV)
    decreases fuel, es.len() + 1,
{
    if es.len() == 0 {
        (Ok(acc), env)
    } else {
        let o = eval_spec(fuel, env, es[0]);
        match o.res {
            Err(e) => (Err(e), o.env),
            Ok(v) => match v {
                ExprV::Integer(i) => eval_args_spec(fuel, o.env, es.drop_first(), acc.push(i)),
                _ => (Err(EvalError::WrongArgumentType), o.env),
            },
        }
    }
}

/// Evaluate argument expressions left to right, keeping every value.
pub open spec fn eval_exprs_spec(fuel: nat, env: EnvV, es: Seq<ExprV>, acc: Seq<ExprV>) -> (Result<
    Seq<ExprV>,
    EvalError,
>, EnvV)
    decreases fuel, es.len() + 1,
{
    if es.len() == 0 {
        (Ok(acc), env)
    } else {
        let o = eval_spec(fuel, env, es[0]);
        match o.res {
            Err(e) => (Err(e), o.env),
            Ok(v) => eval_exprs_spec(fuel, o.env, es.drop_first(), acc.push(v)),
        }
    }
}

/// Evaluate `let` binding pairs in the enclosing environment: each
/// pair is a two-element list of a name and a value expression.
pub open spec fn eval_bindings_spec(
    fuel: nat,
    env: EnvV,
    bs: Seq<ExprV>,
    acc: Seq<(Seq<char>, ExprV)>,
) -> (Result<Seq<(Seq<char>, ExprV)>, EvalError>, EnvV)
    decreases fuel, bs.len() + 1,
{
    if bs.len() == 0 {
        (Ok(acc), env)
    } else {
        match bs[0] {
            ExprV::List(pair) => {
                if pair.len() == 2 {
                    match pair[0] {
                        ExprV::Symbol(name) => {
                            let o = eval_spec(fuel, env, pair[1]);
                            match o.res {
                                Err(e) => (Err(e), o.env),
                                Ok(v) => eval_bindings_spec(
                                    fuel,
                                    o.env,
                                    bs.drop_first(),
                                    acc.push((name, v)),
                                ),
                            }
                        },
                        _ => (Err(EvalError::WrongArgumentType), env),
                    }
                } else {
                    (Err(EvalError::WrongArgumentType), env)
                }
            },
            _ => (Err(EvalError::WrongArgumentType), env),
        }
    }
}

/// Dispatch a form whose operator is a symbol: the special forms
/// `define`, `let` and `lambda`, then the primitive operators; any
/// other name is an unknown operation.
pub open spec fn eval_form_spec(fuel: nat, env: EnvV, opname: Seq<char>, args: Seq<ExprV>) -> EvalOutcome
    decreases fuel, 0int,
{
    if fuel == 0 {
        EvalOutcome { res: Err(EvalError::DepthLimit), env }
    } else {
        let f = (fuel - 1) as nat;
        if opname == "define"@ {
            if args.len() < 2 {
                EvalOutcome { res: Err(EvalError::WrongArgumentType), env }
            } else {
                match args[0] {
                    ExprV::Symbol(name) => EvalOutcome {
                        res: Ok(ExprV::Nothing),
                        env: define_in(env, name, args[1]),
                    },
                    _ => EvalOutcome { res: Err(EvalError::WrongArgumentType), env },
                }
            }
        } else if opname == "let"@ {
            if args.len() < 1 {
                EvalOutcome { res: Err(EvalError::WrongArgumentType), env }
            } else {
                match args[0] {
                    ExprV::List(bs) => {
                        let bo = eval_bindings_spec(f, env, bs, Seq::empty());
                        match bo.0 {
                            Err(e) => EvalOutcome { res: Err(e), env: bo.1 },
                            Ok(pairs) => {
                                let inner = bo.1.push(scope_of_pairs(pairs));
                                let o = eval_seq_spec(f, inner, args.drop_first(), ExprV::Nothing);
                                EvalOutcome { res: o.res, env: o.env.drop_last() }
                            },
                        }
                    },
                    _ => EvalOutcome { res: Err(EvalError::WrongArgumentType), env },
                }
            }
        } else if opname == "lambda"@ {
            if args.len() < 2 {
                EvalOutcome { res: Err(EvalError::WrongArgumentType), env }
            } else {
                match args[0] {
                    ExprV::List(ps) => {
                        if all_symbols(ps) {
                            EvalOutcome {
                                res: Ok(
                                    ExprV::Procedure {
                                        params: symbol_names(ps),
                                        body: Box::new(args[1]),
                                    },
                                ),
                                env,
                            }
                        } else {
                            EvalOutcome { res: Err(EvalError::WrongArgumentType), env }
                        }
                    },
                    _ => EvalOutcome { res: Err(EvalError::WrongArgumentType), env },
                }
            }
        } else if is_arith_op(opname) {
            let ao = eval_args_spec(f, env, args, Seq::empty());
            match ao.0 {
                Err(e) => EvalOutcome { res: Err(e), env: ao.1 },
                Ok(vals) => match apply_arith(opname, vals) {
                    Ok(n) => EvalOutcome { res: Ok(ExprV::Integer(n)), env: ao.1 },
                    Err(e) => EvalOutcome { res: Err(e), env: ao.1 },
                },
            }
        } else {
            EvalOutcome { res: Err(EvalError::UnknownOperation), env }
        }
    }
}

/// Apply a form whose operator is itself an expression: it must
/// evaluate to a procedure; the arguments are evaluated in the current
/// environment; one scope is pushed for the body and popped after it.
pub open spec fn eval_apply_spec(fuel: nat, env: EnvV, opform: ExprV, args: Seq<ExprV>) -> EvalOutcome
    decreases fuel, 0int,
{
    if fuel == 0 {
        EvalOutcome { res: Err(EvalError::DepthLimit), env }
    } else {
        let f = (fuel - 1) as nat;
        let o = eval_spec(f, env, opform);
        match o.res {
            Err(e) => EvalOutcome { res: Err(e), env: o.env },
            Ok(v) => match v {
                ExprV::Procedure { params, body } => {
                    let vo = eval_exprs_spec(f, o.env, args, Seq::empty());
                    match vo.0 {
                        Err(e) => EvalOutcome { res: Err(e), env: vo.1 },
                        Ok(vals) => {
                            let inner = vo.1.push(
                                scope_of_params(params, vals, bind_count(params, vals)),
                            );
                            let o2 = eval_spec(f, inner, *body);
                            EvalOutcome { res: o2.res, env: o2.env.drop_last() }
                        },
                    }
                },
                _ => EvalOutcome { res: Err(EvalError::NotAProcedure), env: o.env },
            },
        }
    }
}

/// The scope discipline of evaluation: the number of open scopes never
/// changes — every scope a construct pushes is popped before the
/// construct finishes, on success and on failure alike — and no scope
/// but the innermost is ever touched.
pub proof fn lemma_eval_env_len(fuel: nat, env: EnvV, e: ExprV)
    requires
        env.len() >= 1,
    ensures
        eval_spec(fuel, env, e).env.len() == env.len(),
        forall|i: int| 0 <= i < env.len() - 1 ==> #[trigger] eval_spec(fuel, env, e).env[i]
            == env[i],
    decreases fuel, 0int,
{
    if fuel > 0 {
        let f = (fuel - 1) as nat;
        match e {
            ExprV::Symbol(name) => {
                match lookup_in(env, name) {
                    Some(bound) => lemma_eval_env_len(f, env, bound),
                    None => {},
                }
            },
            ExprV::Program(es) => lemma_eval_seq_env_len(f, env, es, ExprV::Integer(0)),
            ExprV::List(es) => {
                if es.len() > 0 {
                    match es[0] {
                        ExprV::Symbol(opname) => lemma_eval_form_env_len(
                            f,
                            env,
                            opname,
                            es.drop_first(),
                        ),
                        _ => lemma_eval_apply_env_len(f, env, es[0], es.drop_first()),
                    }
                }
            },
            _ => {},
        }
    }
}

/// As `lemma_eval_env_len`, for sequences of forms.
pub proof fn lemma_eval_seq_env_len(fuel: nat, env: EnvV, es: Seq<ExprV>, acc: ExprV)
    requires
        env.len() >= 1,
    ensures
        eval_seq_spec(fuel, env, es, acc).env.len() == env.len(),
        forall|i: int|
            0 <= i < env.len() - 1 ==> #[trigger] eval_seq_spec(fuel, env, es, acc).env[i]
                == env[i],
    decreases fuel, es.len() + 1,
{
    if es.len() > 0 {
        lemma_eval_env_len(fuel, env, es[0]);
        let o = eval_spec(fuel, env, es[0]);
        match o.res {
            Ok(v) => lemma_eval_seq_env_len(fuel, o.env, es.drop_first(), v),
            Err(_) => {},
        }
    }
}

/// As `lemma_eval_env_len`, for operator argument lists.
pub proof fn lemma_eval_args_env_len(fuel: nat, env: EnvV, es: Seq<ExprV>, acc: Seq<int>)
    requires
        env.len() >= 1,
    ensures
        eval_args_spec(fuel, env, es, acc).1.len() == env.len(),
        forall|i: int|
            0 <= i < env.len() - 1 ==> #[trigger] eval_args_spec(fuel, env, es, acc).1[i]
                == env[i],
    decreases fuel, es.len() + 1,
{
    if es.len() > 0 {
        lemma_eval_env_len(fuel, env, es[0]);
        let o = eval_spec(fuel, env, es[0]);
        match o.res {
            Ok(v) => match v {
                ExprV::Integer(i) => lemma_eval_args_env_len(
                    fuel,
                    o.env,
                    es.drop_first(),
                    acc.push(i),
                ),
                _ => {},
            },
            Err(_) => {},
        }
    }
}

/// As `lemma_eval_env_len`, for procedure argument lists.
pub proof fn lemma_eval_exprs_env_len(fuel: nat, env: EnvV, es: Seq<ExprV>, acc: Seq<ExprV>)
    requires
        env.len() >= 1,
    ensures
        eval_exprs_spec(fuel, env, es, acc).1.len() == env.len(),
        forall|i: int|
            0 <= i < env.len() - 1 ==> #[trigger] eval_exprs_spec(fuel, env, es, acc).1[i]
                == env[i],
    decreases fuel, es.len() + 1,
{
    if es.len() > 0 {
        lemma_eval_env_len(fuel, env, es[0]);
        let o = eval_spec(fuel, env, es[0]);
        match o.res {
            Ok(v) => lemma_eval_exprs_env_len(fuel, o.env, es.drop_first(), acc.push(v)),
            Err(_) => {},
        }
    }
}

/// As `lemma_eval_env_len`, for `let` binding lists.
pub proof fn lemma_eval_bindings_env_len(
    fuel: nat,
    env: EnvV,
    bs: Seq<ExprV>,
    acc: Seq<(Seq<char>, ExprV)>,
)
    requires
        env.len() >= 1,
    ensures
        eval_bindings_spec(fuel, env, bs, acc).1.len() == env.len(),
        forall|i: int|
            0 <= i < env.len() - 1 ==> #[trigger] eval_bindings_spec(fuel, env, bs, acc).1[i]
                == env[i],
    decreases fuel, bs.len() + 1,
{
    if bs.len() > 0 {
        match bs[0] {
            ExprV::List(pair) => {
                if pair.len() == 2 {
                    match pair[0] {
                        ExprV::Symbol(name) => {
                            lemma_eval_env_len(fuel, env, pair[1]);
                            let o = eval_spec(fuel, env, pair[1]);
                            match o.res {
                                Ok(v) => lemma_eval_bindings_env_len(
                                    fuel,
                                    o.env,
                                    bs.drop_first(),
                                    acc.push((name, v)),
                                ),
                                Err(_) => {},
                            }
                        },
                        _ => {},
                    }
                }
            },
            _ => {},
        }
    }
}

/// As `lemma_eval_env_len`, for symbol-headed forms.
pub proof fn lemma_eval_form_env_len(fuel: nat, env: EnvV, opname: Seq<char>, args: Seq<ExprV>)
    requires
        env.len() >= 1,
    ensures
        eval_form_spec(fuel, env, opname, args).env.len() == env.len(),
        forall|i: int|
            0 <= i < env.len() - 1 ==> #[trigger] eval_form_spec(fuel, env, opname, args).env[i]
                == env[i],
    decreases fuel, 0int,
{
    if fuel > 0 {
        let f = (fuel - 1) as nat;
        if opname == "define"@ {
        } else if opname == "let"@ {
            if args.len() >= 1 {
                match args[0] {
                    ExprV::List(bs) => {
                        lemma_eval_bindings_env_len(f, env, bs, Seq::empty());
                        let bo = eval_bindings_spec(f, env, bs, Seq::empty());
                        match bo.0 {
                            Ok(pairs) => {
                                let inner = bo.1.push(scope_of_pairs(pairs));
                                lemma_eval_seq_env_len(
                                    f,
                                    inner,
                                    args.drop_first(),
                                    ExprV::Nothing,
                                );
                            },
                            Err(_) => {},
                        }
                    },
                    _ => {},
                }
            }
        } else if opname == "lambda"@ {
        } else if is_arith_op(opname) {
            lemma_eval_args_env_len(f, env, args, Seq::empty());
        }
    }
}

/// As `lemma_eval_env_len`, for applications of evaluated operators.
pub proof fn lemma_eval_apply_env_len(fuel: nat, env: EnvV, opform: ExprV, args: Seq<ExprV>)
    requires
        env.len() >= 1,
    ensures
        eval_apply_spec(fuel, env, opform, args).env.len() == env.len(),
        forall|i: int|
            0 <= i < env.len() - 1 ==> #[trigger] eval_apply_spec(fuel, env, opform, args).env[i]
                == env[i],
    decreases fuel, 0int,
{
    if fuel > 0 {
        let f = (fuel - 1) as nat;
        lemma_eval_env_len(f, env, opform);
        let o = eval_spec(f, env, opform);
        match o.res {
            Ok(v) => match v {
                ExprV::Procedure { params, body } => {
                    lemma_eval_exprs_env_len(f, o.env, args, Seq::empty());
                    let vo = eval_exprs_spec(f, o.env, args, Seq::empty());
                    match vo.0 {
                        Ok(vals) => {
                            let inner = vo.1.push(
                                scope_of_params(params, vals, bind_count(params, vals)),
                            );
                            lemma_eval_env_len(f, inner, *body);
                        },
                        Err(_) => {},
                    }
                },
                _ => {},
            },
            Err(_) => {},
        }
    }
}


/// The integers a vector of machine words denotes.
pub open spec fn ints_of(s: Seq<i32>) -> Seq<int>
    decreases s.len(),
{
    if s.len() == 0 {
        Seq::empty()
    } else {
        ints_of(s.drop_last()).push(s.last() as int)
    }
}

/// `ints_of` indexes pointwise.
pub broadcast proof fn lemma_ints_of(s: Seq<i32>)
    ensures
        (#[trigger] ints_of(s)).len() == s.len(),
        forall|i: int| 0 <= i < s.len() ==> #[trigger] ints_of(s)[i] == s[i] as int,
    decreases s.len(),
{
    if s.len() > 0 {
        lemma_ints_of(s.drop_last());
        assert(ints_of(s) == ints_of(s.drop_last()).push(s.last() as int));
        assert forall|i: int| 0 <= i < s.len() implies ints_of(s)[i] == s[i] as int by {
            if i < s.len() - 1 {
                assert(s.drop_last()[i] == s[i]);
                assert(ints_of(s)[i] == ints_of(s.drop_last())[i]);
            } else {
                assert(s[i] == s.last());
            }
        }
    }
}

/// The views of a vector of bindings, pair by pair.
pub open spec fn pairs_view(s: Seq<(String, Expr)>) -> Seq<(Seq<char>, ExprV)>
    decreases s.len(),
{
    if s.len() == 0 {
        Seq::empty()
    } else {
        pairs_view(s.drop_last()).push((s.last().0@, s.last().1@))
    }
}

/// `pairs_view` indexes pointwise.
pub broadcast proof fn lemma_pairs_view(s: Seq<(String, Expr)>)
    ensures
        (#[trigger] pairs_view(s)).len() == s.len(),
        forall|i: int| 0 <= i < s.len() ==> #[trigger] pairs_view(s)[i] == (s[i].0@, s[i].1@),
    decreases s.len(),
{
    if s.len() > 0 {
        lemma_pairs_view(s.drop_last());
        assert(pairs_view(s) == pairs_view(s.drop_last()).push((s.last().0@, s.last().1@)));
        assert forall|i: int| 0 <= i < s.len() implies pairs_view(s)[i] == (s[i].0@, s[i].1@) by {
            if i < s.len() - 1 {
                assert(s.drop_last()[i] == s[i]);
                assert(pairs_view(s)[i] == pairs_view(s.drop_last())[i]);
            } else {
                assert(s[i] == s.last());
            }
        }
    }
}

/// What an executable evaluation result must say of the specified one.
pub open spec fn eval_res_matches(r: Result<Expr, EvalError>, s: Result<ExprV, EvalError>) -> bool {
    match r {
        Ok(e) => s == Ok::<ExprV, EvalError>(e@),
        Err(er) => s == Err::<ExprV, EvalError>(er),
    }
}

/// Wrapping 32-bit addition.
fn add_wrap(a: i32, b: i32) -> (r: i32)
    ensures
        r as int == wadd32(a as int, b as int),
{
    a.wrapping_add(b)
}

/// Wrapping 32-bit subtraction.
fn sub_wrap(a: i32, b: i32) -> (r: i32)
    ensures
        r as int == wsub32(a as int, b as int),
{
    a.wrapping_sub(b)
}

/// Wrapping 32-bit multiplication.
fn mul_wrap(a: i32, b: i32) -> (r: i32)
    ensures
        r as int == wmul32(a as int, b as int),
{
    a.wrapping_mul(b)
}

/// A quotient of a bounded numerator by a divisor of two or more is
/// strictly smaller than the bound.
proof fn lemma_div_small(ua: int, ub: int)
    requires
        ub >= 2,
        0 <= ua,
        ua <= 2147483648,
    ensures
        ua / ub < 2147483648,
{
    assert(ua / ub < 2147483648) by (nonlinear_arith)
        requires ub >= 2, 0 <= ua, ua <= 2147483648;
}

/// Wrapping 32-bit division, truncating toward zero.
fn div_wrap(a: i32, b: i32) -> (r: i32)
    requires
        b != 0,
    ensures
        r as int == wdiv32(a as int, b as int),
{
    let ua: u32 = if a < 0 {
        (-(a as i64)) as u32
    } else {
        a as u32
    };
    let ub: u32 = if b < 0 {
        (-(b as i64)) as u32
    } else {
        b as u32
    };
    let uq: u32 = ua / ub;
    proof {
        assert(ub >= 1);
        assert(ua <= 0x8000_0000);
        assert(uq as int == ua as int / ub as int);
        assert(0int / ub as int == 0) by (nonlinear_arith)
            requires ub as int >= 1;
        assert(ua as int / ub as int <= ua as int) by (nonlinear_arith)
            requires ub as int >= 1, ua as int >= 0;
        if ub >= 2 {
            lemma_div_small(ua as int, ub as int);
        }
    }
    if (a < 0) != (b < 0) {
        proof {
            assert(uq <= 0x8000_0000);
            if a == 0 {
                assert(uq == 0);
            }
        }
        (-(uq as i64)) as i32
    } else {
        if uq >= 0x8000_0000 {
            proof {
                assert(uq == 0x8000_0000);
                assert(ua == 0x8000_0000 && ub == 1);
                assert(a == i32::MIN && b == -1);
            }
            i32::MIN
        } else {
            proof {
                if a == i32::MIN && b == -1 {
                    assert(ua == 0x8000_0000 && ub == 1);
                    assert(2147483648int / 1int == 2147483648int) by (nonlinear_arith);
                    assert(false);
                }
                if a == 0 {
                    assert(uq == 0);
                }
            }
            uq as i32
        }
    }
}

/// Fold one primitive operator over its evaluated argument values.
#[verifier::loop_isolation(false)]
fn apply_arith_exec(opname: &String, vals: &Vec<i32>) -> (r: Result<i32, EvalError>)
    requires
        is_arith_op(opname@),
    ensures
        match r {
            Ok(n) => apply_arith(opname@, ints_of(vals@)) == Ok::<int, EvalError>(n as int),
            Err(e) => apply_arith(opname@, ints_of(vals@)) == Err::<int, EvalError>(e),
        },
{
    broadcast use lemma_ints_of;

    let plus = str_eq(opname.as_str(), "+");
    let star = str_eq(opname.as_str(), "*");
    let minus = str_eq(opname.as_str(), "-");
    let mut acc: i32;
    let mut j: usize;
    if plus {
        acc = 0;
        j = 0;
    } else if star {
        acc = 1;
        j = 0;
    } else {
        if vals.len() == 0 {
            return Ok(0);
        }
        acc = vals[0];
        j = 1;
        proof {
            assert(ints_of(vals@).drop_first() =~= ints_of(vals@).skip(1));
        }
    }
    proof {
        assert(ints_of(vals@).skip(0) =~= ints_of(vals@));
    }
    while j < vals.len()
        invariant
            j <= vals.len(),
            fold_arith(opname@, acc as int, ints_of(vals@).skip(j as int)) == apply_arith(
                opname@,
                ints_of(vals@),
            ),
        decreases vals.len() - j,
    {
        let v = vals[j];
        proof {
            assert(ints_of(vals@).skip(j as int)[0] == v as int);
            assert(ints_of(vals@).skip(j as int).drop_first() =~= ints_of(vals@).skip(j + 1));
        }
        if plus {
            acc = add_wrap(acc, v);
        } else if star {
            acc = mul_wrap(acc, v);
        } else if minus {
            acc = sub_wrap(acc, v);
        } else {
            if v == 0 {
                return Err(EvalError::DivisionByZero);
            }
            acc = div_wrap(acc, v);
        }
        j += 1;
    }
    proof {
        assert(ints_of(vals@).skip(vals@.len() as int) =~= Seq::<int>::empty());
    }
    Ok(acc)
}

impl Env {
    /// Evaluate an expression to a result, with the standard depth
    /// budget.  The result and every change to the environment are
    /// exactly those of [`eval_spec`]; the number of open scopes is
    /// unchanged.
    pub fn eval(&mut self, expression: &Expr) -> (r: Result<Expr, EvalError>)
        ensures
            final(self)@ == eval_spec(EVAL_DEPTH as nat, old(self)@, expression@).env,
            eval_res_matches(r, eval_spec(EVAL_DEPTH as nat, old(self)@, expression@).res),
            final(self)@.len() == old(self)@.len(),
            forall|i: int|
                0 <= i < old(self)@.len() - 1 ==> #[trigger] final(self)@[i] == old(self)@[i],
    {
        proof {
            broadcast use lemma_view_scopes;

            assert(self@.len() >= 1);
            lemma_eval_env_len(EVAL_DEPTH as nat, self@, expression@);
        }
        self.eval_fuel(expression, EVAL_DEPTH)
    }

    /// Evaluate one expression with an explicit depth budget.
    fn eval_fuel(&mut self, e: &Expr, fuel: u64) -> (r: Result<Expr, EvalError>)
        requires
            old(self)@.len() >= 1,
        ensures
            final(self)@ == eval_spec(fuel as nat, old(self)@, e@).env,
            eval_res_matches(r, eval_spec(fuel as nat, old(self)@, e@).res),
            final(self)@.len() == old(self)@.len(),
        decreases fuel, 0int,
    {
        proof {
            broadcast use lemma_view_exprs;

            lemma_eval_env_len(fuel as nat, self@, e@);
        }
        if fuel == 0 {
            return Err(EvalError::DepthLimit);
        }
        let f = fuel - 1;
        match e {
            Expr::Bool(b) => Ok(Expr::Bool(*b)),
            Expr::Integer(i) => Ok(Expr::Integer(*i)),
            Expr::Nothing => Ok(Expr::Nothing),
            Expr::Procedure { .. } => Ok(e.deep_clone()),
            Expr::Symbol(name) => {
                let looked = self.lookup(name.as_str());
                match looked {
                    None => Err(EvalError::UnboundSymbol),
                    Some(bound) => {
                        let b = bound.deep_clone();
                        self.eval_fuel(&b, f)
                    },
                }
            },
            Expr::Program(es) => {
                proof {
                    assert(view_exprs(es@).skip(0) =~= view_exprs(es@));
                }
                self.eval_seq_fuel(es, 0, Expr::Integer(0), f)
            },
            Expr::List(es) => {
                if es.len() == 0 {
                    proof {
                        assert(view_exprs(es@).len() == es@.len());
                    }
                    return Err(EvalError::EmptyApplication);
                }
                proof {
                    assert(view_exprs(es@)[0] == es@[0]@);
                    assert(view_exprs(es@).drop_first() =~= view_exprs(es@).skip(1));
                }
                match &es[0] {
                    Expr::Symbol(opname) => self.eval_form_fuel(opname, es, f),
                    _ => self.eval_apply_fuel(es, f),
                }
            },
        }
    }

    /// Evaluate the forms `es[i..]` in order; the last result wins.
    fn eval_seq_fuel(&mut self, es: &Vec<Expr>, i: usize, acc: Expr, fuel: u64) -> (r: Result<
        Expr,
        EvalError,
    >)
        requires
            old(self)@.len() >= 1,
            i <= es@.len(),
        ensures
            final(self)@ == eval_seq_spec(
                fuel as nat,
                old(self)@,
                view_exprs(es@).skip(i as int),
                acc@,
            ).env,
            eval_res_matches(
                r,
                eval_seq_spec(fuel as nat, old(self)@, view_exprs(es@).skip(i as int), acc@).res,
            ),
            final(self)@.len() == old(self)@.len(),
        decreases fuel, es@.len() - i + 1,
    {
        proof {
            broadcast use lemma_view_exprs;

            lemma_eval_seq_env_len(fuel as nat, self@, view_exprs(es@).skip(i as int), acc@);
        }
        if i == es.len() {
            proof {
                assert(view_exprs(es@).skip(i as int) =~= Seq::<ExprV>::empty());
            }
            return Ok(acc);
        }
        proof {
            assert(view_exprs(es@).skip(i as int)[0] == es@[i as int]@);
            assert(view_exprs(es@).skip(i as int).drop_first() =~= view_exprs(es@).skip(i + 1));
        }
        match self.eval_fuel(&es[i], fuel) {
            Err(e) => Err(e),
            Ok(v) => self.eval_seq_fuel(es, i + 1, v, fuel),
        }
    }

    /// Evaluate the argument forms `es[i..]` left to right, each
    /// converted to an integer as it arrives.
    fn eval_args_fuel(&mut self, es: &Vec<Expr>, i: usize, acc: Vec<i32>, fuel: u64) -> (r: Result<
        Vec<i32>,
        EvalError,
    >)
        requires
            old(self)@.len() >= 1,
            i <= es@.len(),
        ensures
            ({
                let o = eval_args_spec(
                    fuel as nat,
                    old(self)@,
                    view_exprs(es@).skip(i as int),
                    ints_of(acc@),
                );
                final(self)@ == o.1 && (match r {
                    Ok(v) => o.0 == Ok::<Seq<int>, EvalError>(ints_of(v@)),
                    Err(e) => o.0 == Err::<Seq<int>, EvalError>(e),
                }) && final(self)@.len() == old(self)@.len()
            }),
        decreases fuel, es@.len() - i + 1,
    {
        proof {
            broadcast use lemma_view_exprs;

            lemma_eval_args_env_len(
                fuel as nat,
                self@,
                view_exprs(es@).skip(i as int),
                ints_of(acc@),
            );
        }
        if i == es.len() {
            proof {
                assert(view_exprs(es@).skip(i as int) =~= Seq::<ExprV>::empty());
            }
            return Ok(acc);
        }
        proof {
            assert(view_exprs(es@).skip(i as int)[0] == es@[i as int]@);
            assert(view_exprs(es@).skip(i as int).drop_first() =~= view_exprs(es@).skip(i + 1));
        }
        match self.eval_fuel(&es[i], fuel) {
            Err(e) => Err(e),
            Ok(v) => match v {
                Expr::Integer(n) => {
                    let mut acc2 = acc;
                    let ghost acc_v = acc2@;
                    acc2.push(n);
                    proof {
                        assert(acc2@.drop_last() =~= acc_v);
                        assert(ints_of(acc2@) == ints_of(acc_v).push(n as int));
                    }
                    self.eval_args_fuel(es, i + 1, acc2, fuel)
                },
                _ => Err(EvalError::WrongArgumentType),
            },
        }
    }

    /// Evaluate the argument forms `es[i..]` left to right, keeping
    /// every value.
    fn eval_exprs_fuel(&mut self, es: &Vec<Expr>, i: usize, acc: Vec<Expr>, fuel: u64) -> (r:
        Result<Vec<Expr>, EvalError>)
        requires
            old(self)@.len() >= 1,
            i <= es@.len(),
        ensures
            ({
                let o = eval_exprs_spec(
                    fuel as nat,
                    old(self)@,
                    view_exprs(es@).skip(i as int),
                    view_exprs(acc@),
                );
                final(self)@ == o.1 && (match r {
                    Ok(v) => o.0 == Ok::<Seq<ExprV>, EvalError>(view_exprs(v@)),
                    Err(e) => o.0 == Err::<Seq<ExprV>, EvalError>(e),
                }) && final(self)@.len() == old(self)@.len()
            }),
        decreases fuel, es@.len() - i + 1,
    {
        proof {
            broadcast use lemma_view_exprs;

            lemma_eval_exprs_env_len(
                fuel as nat,
                self@,
                view_exprs(es@).skip(i as int),
                view_exprs(acc@),
            );
        }
        if i == es.len() {
            proof {
                assert(view_exprs(es@).skip(i as int) =~= Seq::<ExprV>::empty());
            }
            return Ok(acc);
        }
        proof {
            assert(view_exprs(es@).skip(i as int)[0] == es@[i as int]@);
            assert(view_exprs(es@).skip(i as int).drop_first() =~= view_exprs(es@).skip(i + 1));
        }
        match self.eval_fuel(&es[i], fuel) {
            Err(e) => Err(e),
            Ok(v) => {
                let mut acc2 = acc;
                let ghost acc_v = acc2@;
                acc2.push(v);
                proof {
                    assert(acc2@.drop_last() =~= acc_v);
                    assert(view_exprs(acc2@) == view_exprs(acc_v).push(acc2@.last()@));
                }
                self.eval_exprs_fuel(es, i + 1, acc2, fuel)
            },
        }
    }

    /// Evaluate the `let` binding pairs `bs[i..]` in the enclosing
    /// environment.
    fn eval_bindings_fuel(
        &mut self,
        bs: &Vec<Expr>,
        i: usize,
        acc: Vec<(String, Expr)>,
        fuel: u64,
    ) -> (r: Result<Vec<(String, Expr)>, EvalError>)
        requires
            old(self)@.len() >= 1,
            i <= bs@.len(),
        ensures
            ({
                let o = eval_bindings_spec(
                    fuel as nat,
                    old(self)@,
                    view_exprs(bs@).skip(i as int),
                    pairs_view(acc@),
                );
                final(self)@ == o.1 && (match r {
                    Ok(v) => o.0 == Ok::<Seq<(Seq<char>, ExprV)>, EvalError>(pairs_view(v@)),
                    Err(e) => o.0 == Err::<Seq<(Seq<char>, ExprV)>, EvalError>(e),
                }) && final(self)@.len() == old(self)@.len()
            }),
        decreases fuel, bs@.len() - i + 1,
    {
        proof {
            broadcast use lemma_view_exprs;

            lemma_eval_bindings_env_len(
                fuel as nat,
                self@,
                view_exprs(bs@).skip(i as int),
                pairs_view(acc@),
            );
        }
        if i == bs.len() {
            proof {
                assert(view_exprs(bs@).skip(i as int) =~= Seq::<ExprV>::empty());
            }
            return Ok(acc);
        }
        proof {
            assert(view_exprs(bs@).skip(i as int)[0] == bs@[i as int]@);
            assert(view_exprs(bs@).skip(i as int).drop_first() =~= view_exprs(bs@).skip(i + 1));
        }
        match &bs[i] {
            Expr::List(pair) => {
                if pair.len() != 2 {
                    proof {
                        assert(view_exprs(pair@).len() == pair@.len());
                    }
                    return Err(EvalError::WrongArgumentType);
                }
                proof {
                    assert(view_exprs(pair@)[0] == pair@[0]@);
                    assert(view_exprs(pair@)[1] == pair@[1]@);
                }
                match &pair[0] {
                    Expr::Symbol(name) => {
                        match self.eval_fuel(&pair[1], fuel) {
                            Err(e) => Err(e),
                            Ok(v) => {
                                let entry = (name.clone(), v);
                                let mut acc2 = acc;
                                let ghost acc_v = acc2@;
                                acc2.push(entry);
                                proof {
                                    assert(acc2@.drop_last() =~= acc_v);
                                    assert(pairs_view(acc2@) == pairs_view(acc_v).push(
                                        (acc2@.last().0@, acc2@.last().1@),
                                    ));
                                }
                                self.eval_bindings_fuel(bs, i + 1, acc2, fuel)
                            },
                        }
                    },
                    _ => Err(EvalError::WrongArgumentType),
                }
            },
            _ => Err(EvalError::WrongArgumentType),
        }
    }

    /// Dispatch a form headed by a symbol: special forms, then the
    /// primitive operators.
    #[verifier::loop_isolation(false)]
    fn eval_form_fuel(&mut self, opname: &String, es: &Vec<Expr>, fuel: u64) -> (r: Result<
        Expr,
        EvalError,
    >)
        requires
            old(self)@.len() >= 1,
            es@.len() >= 1,
        ensures
            final(self)@ == eval_form_spec(
                fuel as nat,
                old(self)@,
                opname@,
                view_exprs(es@).skip(1),
            ).env,
            eval_res_matches(
                r,
                eval_form_spec(fuel as nat, old(self)@, opname@, view_exprs(es@).skip(1)).res,
            ),
            final(self)@.len() == old(self)@.len(),
        decreases fuel, 0int,
    {
        proof {
            broadcast use lemma_view_exprs;

            lemma_eval_form_env_len(fuel as nat, self@, opname@, view_exprs(es@).skip(1));
        }
        let ghost args = view_exprs(es@).skip(1);
        if fuel == 0 {
            return Err(EvalError::DepthLimit);
        }
        let f = fuel - 1;
        if str_eq(opname.as_str(), "define") {
            if es.len() < 3 {
                return Err(EvalError::WrongArgumentType);
            }
            proof {
                assert(args[0] == es@[1]@);
                assert(args[1] == es@[2]@);
            }
            match &es[1] {
                Expr::Symbol(name) => {
                    let value = es[2].deep_clone();
                    self.define(name.clone(), value);
                    Ok(Expr::Nothing)
                },
                _ => Err(EvalError::WrongArgumentType),
            }
        } else if str_eq(opname.as_str(), "let") {
            if es.len() < 2 {
                return Err(EvalError::WrongArgumentType);
            }
            proof {
                assert(args[0] == es@[1]@);
            }
            match &es[1] {
                Expr::List(bs) => {
                    proof {
                        assert(view_exprs(bs@).skip(0) =~= view_exprs(bs@));
                        assert(pairs_view(Seq::<(String, Expr)>::empty()) =~= Seq::<(
                            Seq<char>,
                            ExprV,
                        )>::empty());
                    }
                    match self.eval_bindings_fuel(bs, 0, Vec::new(), f) {
                        Err(e) => Err(e),
                        Ok(pairs) => {
                            let ghost env1 = self@;
                            let ghost pairs_v = pairs_view(pairs@);
                            self.begin_scope();
                            proof {
                                broadcast use lemma_pairs_view;

                                assert(pairs_v.take(0) =~= Seq::<(Seq<char>, ExprV)>::empty());
                                assert(scope_of_pairs(pairs_v.take(0)) =~= Map::<
                                    Seq<char>,
                                    ExprV,
                                >::empty());
                            }
                            let mut j: usize = 0;
                            while j < pairs.len()
                                invariant
                                    j <= pairs.len(),
                                    pairs_v == pairs_view(pairs@),
                                    pairs_v.len() == pairs@.len(),
                                    self@ == env1.push(scope_of_pairs(pairs_v.take(j as int))),
                                decreases pairs@.len() - j,
                            {
                                proof {
                                    broadcast use lemma_pairs_view;

                                }
                                let ghost env_before = self@;
                                let name = pairs[j].0.clone();
                                let value = pairs[j].1.deep_clone();
                                self.define(name, value);
                                proof {
                                    assert(pairs_v.take(j + 1).drop_last() =~= pairs_v.take(
                                        j as int,
                                    ));
                                    assert(pairs_v.take(j + 1).last() == pairs_v[j as int]);
                                    assert(scope_of_pairs(pairs_v.take(j + 1)) == scope_of_pairs(
                                        pairs_v.take(j as int),
                                    ).insert(pairs_v[j as int].0, pairs_v[j as int].1));
                                    assert(self@ =~= env1.push(
                                        scope_of_pairs(pairs_v.take(j + 1)),
                                    ));
                                }
                                j += 1;
                            }
                            proof {
                                assert(pairs_v.take(pairs@.len() as int) =~= pairs_v);
                                assert(view_exprs(es@).skip(1).drop_first() =~= view_exprs(
                                    es@,
                                ).skip(2));
                            }
                            let body_r = self.eval_seq_fuel(es, 2, Expr::Nothing, f);
                            self.end_scope();
                            body_r
                        },
                    }
                },
                _ => Err(EvalError::WrongArgumentType),
            }
        } else if str_eq(opname.as_str(), "lambda") {
            if es.len() < 3 {
                return Err(EvalError::WrongArgumentType);
            }
            proof {
                assert(args[0] == es@[1]@);
                assert(args[1] == es@[2]@);
            }
            match &es[1] {
                Expr::List(ps) => {
                    let ghost ps_v = view_exprs(ps@);
                    let mut params: Vec<String> = Vec::new();
                    let mut j: usize = 0;
                    proof {
                        broadcast use {crate::expression::lemma_view_strings, lemma_symbol_names};

                        assert(view_strings(params@) =~= symbol_names(ps_v).take(0));
                    }
                    while j < ps.len()
                        invariant
                            j <= ps.len(),
                            ps_v == view_exprs(ps@),
                            ps_v.len() == ps@.len(),
                            forall|x: int| 0 <= x < j ==> (#[trigger] ps_v[x]) is Symbol,
                            view_strings(params@) == symbol_names(ps_v).take(j as int),
                        decreases ps@.len() - j,
                    {
                        proof {
                            broadcast use {
                                crate::expression::lemma_view_strings,
                                lemma_view_exprs,
                                lemma_symbol_names,
                            };

                            assert(ps_v[j as int] == ps@[j as int]@);
                        }
                        match &ps[j] {
                            Expr::Symbol(sname) => {
                                let ghost params_v = params@;
                                params.push(sname.clone());
                                proof {
                                    assert(params@.drop_last() =~= params_v);
                                    assert(view_strings(params@) == view_strings(params_v).push(
                                        params@.last()@,
                                    ));
                                    assert(symbol_names(ps_v).take(j + 1).drop_last()
                                        =~= symbol_names(ps_v).take(j as int));
                                    assert(view_strings(params@) =~= symbol_names(ps_v).take(
                                        j + 1,
                                    ));
                                }
                            },
                            _ => {
                                proof {
                                    assert(!(ps_v[j as int] is Symbol));
                                    assert(!all_symbols(ps_v));
                                }
                                return Err(EvalError::WrongArgumentType);
                            },
                        }
                        j += 1;
                    }
                    proof {
                        broadcast use lemma_symbol_names;

                        assert(all_symbols(ps_v));
                        assert(symbol_names(ps_v).take(ps@.len() as int) =~= symbol_names(ps_v));
                    }
                    let body = Box::new(es[2].deep_clone());
                    Ok(Expr::Procedure { params, expr: body })
                },
                _ => Err(EvalError::WrongArgumentType),
            }
        } else {
            let plus = str_eq(opname.as_str(), "+");
            let star = str_eq(opname.as_str(), "*");
            let minus = str_eq(opname.as_str(), "-");
            let slash = str_eq(opname.as_str(), "/");
            if plus || star || minus || slash {
                proof {
                    assert(ints_of(Seq::<i32>::empty()) =~= Seq::<int>::empty());
                }
                match self.eval_args_fuel(es, 1, Vec::new(), f) {
                    Err(e) => Err(e),
                    Ok(vals) => {
                        match apply_arith_exec(opname, &vals) {
                            Ok(n) => Ok(Expr::Integer(n)),
                            Err(e) => Err(e),
                        }
                    },
                }
            } else {
                Err(EvalError::UnknownOperation)
            }
        }
    }

    /// Apply a form whose operator is itself an expression.
    #[verifier::loop_isolation(false)]
    fn eval_apply_fuel(&mut self, es: &Vec<Expr>, fuel: u64) -> (r: Result<Expr, EvalError>)
        requires
            old(self)@.len() >= 1,
            es@.len() >= 1,
        ensures
            final(self)@ == eval_apply_spec(
                fuel as nat,
                old(self)@,
                view_exprs(es@)[0],
                view_exprs(es@).skip(1),
            ).env,
            eval_res_matches(
                r,
                eval_apply_spec(
                    fuel as nat,
                    old(self)@,
                    view_exprs(es@)[0],
                    view_exprs(es@).skip(1),
                ).res,
            ),
            final(self)@.len() == old(self)@.len(),
        decreases fuel, 0int,
    {
        proof {
            broadcast use lemma_view_exprs;

            lemma_eval_apply_env_len(
                fuel as nat,
                self@,
                view_exprs(es@)[0],
                view_exprs(es@).skip(1),
            );
        }
        if fuel == 0 {
            return Err(EvalError::DepthLimit);
        }
        let f = fuel - 1;
        proof {
            assert(view_exprs(es@)[0] == es@[0]@);
        }
        match self.eval_fuel(&es[0], f) {
            Err(e) => Err(e),
            Ok(v) => match v {
                Expr::Procedure { params, expr } => {
                    proof {
                        assert(view_exprs(Seq::<Expr>::empty()) =~= Seq::<ExprV>::empty());
                    }
                    match self.eval_exprs_fuel(es, 1, Vec::new(), f) {
                        Err(e) => Err(e),
                        Ok(vals) => {
                            let ghost env2 = self@;
                            let ghost params_v = view_strings(params@);
                            let ghost vals_v = view_exprs(vals@);
                            self.begin_scope();
                            proof {
                                broadcast use {
                                    crate::expression::lemma_view_strings,
                                    lemma_view_exprs,
                                };

                                assert(scope_of_params(params_v, vals_v, 0) =~= Map::<
                                    Seq<char>,
                                    ExprV,
                                >::empty());
                            }
                            let k = if params.len() <= vals.len() {
                                params.len()
                            } else {
                                vals.len()
                            };
                            proof {
                                assert(k as int == bind_count(params_v, vals_v));
                            }
                            let mut j: usize = 0;
                            while j < k
                                invariant
                                    j <= k,
                                    k <= params@.len(),
                                    k <= vals@.len(),
                                    params_v == view_strings(params@),
                                    vals_v == view_exprs(vals@),
                                    params_v.len() == params@.len(),
                                    vals_v.len() == vals@.len(),
                                    self@ == env2.push(scope_of_params(params_v, vals_v, j as int)),
                                decreases k - j,
                            {
                                proof {
                                    broadcast use {
                                        crate::expression::lemma_view_strings,
                                        lemma_view_exprs,
                                    };

                                }
                                let name = params[j].clone();
                                let value = vals[j].deep_clone();
                                self.define(name, value);
                                proof {
                                    assert(self@ =~= env2.push(
                                        scope_of_params(params_v, vals_v, j + 1),
                                    ));
                                }
                                j += 1;
                            }
                            let body_r = self.eval_fuel(&expr, f);
                            self.end_scope();
                            body_r
                        },
                    }
                },
                _ => Err(EvalError::NotAProcedure),
            },
        }
    }
}
} // verus!
