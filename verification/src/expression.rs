//! The expression model: one recursive tagged union used both as a
//! syntax-tree node and as a runtime value.
use vstd::prelude::*;

verus! {

/// A form of the language.  The parser produces a `Program` of forms; the
/// evaluator reduces a form to another `Expr` (an `Integer`, `Bool`,
/// `Procedure` or `Nothing`).
#[derive(Debug)]
pub enum Expr {
    /// A boolean literal, written `#t` or `#f`.
    Bool(bool),
    /// An identifier, resolved by scanning the environment.
    Symbol(String),
    /// A base-10 signed integer literal.
    Integer(i32),
    /// A compound form: `(op arg ...)`.
    List(Vec<Expr>),
    /// The top-level sequence of forms of one source text.
    Program(Vec<Expr>),
    /// The void result, e.g. of `define`.
    Nothing,
    /// A storable callable: parameter names and one body form.  No
    /// environment is captured; scoping is dynamic by design.
    Procedure { params: Vec<String>, expr: Box<Expr> },
}

/// The mathematical shape of an [`Expr`]: text becomes `Seq<char>`,
/// vectors become `Seq`, machine integers become `int`.
pub enum ExprV {
    Bool(bool),
    Symbol(Seq<char>),
    Integer(int),
    List(Seq<ExprV>),
    Program(Seq<ExprV>),
    Nothing,
    Procedure { params: Seq<Seq<char>>, body: Box<ExprV> },
}

impl View for Expr {
    type V = ExprV;

    open spec fn view(&self) -> ExprV
        decreases self,
    {
        match self {
            Expr::Bool(b) => ExprV::Bool(*b),
            Expr::Symbol(s) => ExprV::Symbol(s@),
            Expr::Integer(i) => ExprV::Integer(*i as int),
            Expr::List(l) => ExprV::List(view_exprs(l@)),
            Expr::Program(l) => ExprV::Program(view_exprs(l@)),
            Expr::Nothing => ExprV::Nothing,
            Expr::Procedure { params, expr } => ExprV::Procedure {
                params: view_strings(params@),
                body: Box::new((**expr)@),
            },
        }
    }
}

/// The views of a sequence of expressions, element by element.
pub open spec fn view_exprs(s: Seq<Expr>) -> Seq<ExprV>
    decreases s,
{
    if s.len() == 0 {
        Seq::empty()
    } else {
        view_exprs(s.drop_last()).push(s.last()@)
    }
}

/// The views of a sequence of names, element by element.
pub open spec fn view_strings(s: Seq<String>) -> Seq<Seq<char>>
    decreases s,
{
    if s.len() == 0 {
        Seq::empty()
    } else {
        view_strings(s.drop_last()).push(s.last()@)
    }
}

/// `view_exprs` indexes pointwise.
pub broadcast proof fn lemma_view_exprs(s: Seq<Expr>)
    ensures
        (#[trigger] view_exprs(s)).len() == s.len(),
        forall|i: int| 0 <= i < s.len() ==> #[trigger] view_exprs(s)[i] == s[i]@,
    decreases s.len(),
{
    if s.len() > 0 {
        lemma_view_exprs(s.drop_last());
        assert(view_exprs(s) == view_exprs(s.drop_last()).push(s.last()@));
        assert forall|i: int| 0 <= i < s.len() implies view_exprs(s)[i] == s[i]@ by {
            if i < s.len() - 1 {
                assert(s.drop_last()[i] == s[i]);
                assert(view_exprs(s)[i] == view_exprs(s.drop_last())[i]);
            } else {
                assert(s[i] == s.last());
            }
        }
    }
}

/// `view_strings` indexes pointwise.
pub broadcast proof fn lemma_view_strings(s: Seq<String>)
    ensures
        (#[trigger] view_strings(s)).len() == s.len(),
        forall|i: int| 0 <= i < s.len() ==> #[trigger] view_strings(s)[i] == s[i]@,
    decreases s.len(),
{
    if s.len() > 0 {
        lemma_view_strings(s.drop_last());
        assert(view_strings(s) == view_strings(s.drop_last()).push(s.last()@));
        assert forall|i: int| 0 <= i < s.len() implies view_strings(s)[i] == s[i]@ by {
            if i < s.len() - 1 {
                assert(s.drop_last()[i] == s[i]);
                assert(view_strings(s)[i] == view_strings(s.drop_last())[i]);
            } else {
                assert(s[i] == s.last());
            }
        }
    }
}

impl Expr {
    /// The payload of a boolean literal.
    pub fn to_bool(&self) -> (r: bool)
        requires
            self@ is Bool,
        ensures
            self@ == ExprV::Bool(r),
    {
        match self {
            Expr::Bool(val) => *val,
            _ => unreached(),
        }
    }

    /// The name carried by a symbol.
    pub fn to_string(&self) -> (r: &str)
        requires
            self@ is Symbol,
        ensures
            self@ == ExprV::Symbol(r@),
    {
        match self {
            Expr::Symbol(symbol) => symbol.as_str(),
            _ => unreached(),
        }
    }

    /// The value carried by an integer.
    pub fn to_integer(&self) -> (r: i32)
        requires
            self@ is Integer,
        ensures
            self@ == ExprV::Integer(r as int),
    {
        match self {
            Expr::Integer(integer) => *integer,
            _ => unreached(),
        }
    }

    /// The value carried by an integer, consuming the expression.
    pub fn into_integer(self) -> (r: i32)
        requires
            self@ is Integer,
        ensures
            self@ == ExprV::Integer(r as int),
    {
        self.to_integer()
    }

    /// The elements of a compound form.
    pub fn to_list(&self) -> (r: &Vec<Expr>)
        requires
            self@ is List,
        ensures
            self@ == ExprV::List(view_exprs(r@)),
    {
        match self {
            Expr::List(list) => list,
            _ => unreached(),
        }
    }

    /// A structural copy: the result has the same view as `self`.
    pub fn deep_clone(&self) -> (r: Expr)
        ensures
            r@ == self@,
        decreases self,
    {
        match self {
            Expr::Bool(b) => Expr::Bool(*b),
            Expr::Symbol(s) => Expr::Symbol(s.clone()),
            Expr::Integer(i) => Expr::Integer(*i),
            Expr::List(l) => Expr::List(clone_exprs(l)),
            Expr::Program(l) => Expr::Program(clone_exprs(l)),
            Expr::Nothing => Expr::Nothing,
            Expr::Procedure { params, expr } => Expr::Procedure {
                params: clone_strings(params),
                expr: Box::new(expr.deep_clone()),
            },
        }
    }
}

/// A structural copy of a vector of expressions.
#[verifier::loop_isolation(false)]
fn clone_exprs(l: &Vec<Expr>) -> (r: Vec<Expr>)
    ensures
        view_exprs(r@) == view_exprs(l@),
    decreases l,
{
    broadcast use lemma_view_exprs;

    let mut r: Vec<Expr> = Vec::new();
    let n = l.len();
    for i in 0..n
        invariant
            n == l.len(),
            view_exprs(r@) =~= view_exprs(l@).take(i as int),
    {
        let ghost prev = r@;
        r.push(l[i].deep_clone());
        proof {
            assert(r@.drop_last() =~= prev);
            assert(view_exprs(r@) == view_exprs(prev).push(r@.last()@));
            assert forall|j: int| 0 <= j < i + 1 implies view_exprs(r@)[j] == view_exprs(
                l@,
            ).take(i + 1)[j] by {
                assert(view_exprs(l@)[j] == l@[j]@);
                if j < i {
                    assert(view_exprs(r@)[j] == view_exprs(prev)[j]);
                    assert(view_exprs(prev)[j] == view_exprs(l@).take(i as int)[j]);
                }
            }
            assert(view_exprs(r@) =~= view_exprs(l@).take(i + 1));
        }
    }
    proof {
        assert(view_exprs(l@).take(n as int) =~= view_exprs(l@));
    }
    r
}

/// A copy of a vector of names.
#[verifier::loop_isolation(false)]
fn clone_strings(l: &Vec<String>) -> (r: Vec<String>)
    ensures
        view_strings(r@) == view_strings(l@),
{
    broadcast use lemma_view_strings;

    let mut r: Vec<String> = Vec::new();
    let n = l.len();
    for i in 0..n
        invariant
            n == l.len(),
            view_strings(r@) =~= view_strings(l@).take(i as int),
    {
        let ghost prev = r@;
        r.push(l[i].clone());
        proof {
            assert(r@.drop_last() =~= prev);
            assert(view_strings(r@) == view_strings(prev).push(r@.last()@));
            assert forall|j: int| 0 <= j < i + 1 implies view_strings(r@)[j] == view_strings(
                l@,
            ).take(i + 1)[j] by {
                assert(view_strings(l@)[j] == l@[j]@);
                if j < i {
                    assert(view_strings(r@)[j] == view_strings(prev)[j]);
                    assert(view_strings(prev)[j] == view_strings(l@).take(i as int)[j]);
                }
            }
            assert(view_strings(r@) =~= view_strings(l@).take(i + 1));
        }
    }
    proof {
        assert(view_strings(l@).take(n as int) =~= view_strings(l@));
    }
    r
}


/// Whether two pieces of text are the same characters.
pub(crate) fn str_eq(a: &str, b: &str) -> (r: bool)
    ensures
        r == (a@ == b@),
{
    let x = a.to_owned();
    let y = b.to_owned();
    x == y
}

impl Expr {
    /// Structural equality: whether two expressions have the same view.
    pub fn expr_eq(&self, other: &Expr) -> (r: bool)
        ensures
            r == (self@ == other@),
        decreases self,
    {
        match (self, other) {
            (Expr::Bool(a), Expr::Bool(b)) => *a == *b,
            (Expr::Symbol(a), Expr::Symbol(b)) => str_eq(a.as_str(), b.as_str()),
            (Expr::Integer(a), Expr::Integer(b)) => *a == *b,
            (Expr::List(a), Expr::List(b)) => exprs_eq(a, b),
            (Expr::Program(a), Expr::Program(b)) => exprs_eq(a, b),
            (Expr::Nothing, Expr::Nothing) => true,
            (
                Expr::Procedure { params: p1, expr: e1 },
                Expr::Procedure { params: p2, expr: e2 },
            ) => {
                let r1 = strings_eq(p1, p2);
                let r2 = e1.expr_eq(e2);
                r1 && r2
            },
            _ => false,
        }
    }
}

/// Elementwise equality of two vectors of expressions, by their views.
#[verifier::loop_isolation(false)]
fn exprs_eq(a: &Vec<Expr>, b: &Vec<Expr>) -> (r: bool)
    ensures
        r == (view_exprs(a@) == view_exprs(b@)),
    decreases a,
{
    broadcast use lemma_view_exprs;

    if a.len() != b.len() {
        proof {
            assert(view_exprs(a@).len() != view_exprs(b@).len());
        }
        return false;
    }
    let n = a.len();
    for i in 0..n
        invariant
            n == a.len() == b.len(),
            forall|k: int| 0 <= k < i ==> view_exprs(a@)[k] == view_exprs(b@)[k],
    {
        if !a[i].expr_eq(&b[i]) {
            proof {
                assert(view_exprs(a@)[i as int] != view_exprs(b@)[i as int]);
            }
            return false;
        }
    }
    proof {
        assert(view_exprs(a@) =~= view_exprs(b@));
    }
    true
}

/// Elementwise equality of two vectors of names, by their views.
#[verifier::loop_isolation(false)]
fn strings_eq(a: &Vec<String>, b: &Vec<String>) -> (r: bool)
    ensures
        r == (view_strings(a@) == view_strings(b@)),
{
    broadcast use lemma_view_strings;

    if a.len() != b.len() {
        proof {
            assert(view_strings(a@).len() != view_strings(b@).len());
        }
        return false;
    }
    let n = a.len();
    for i in 0..n
        invariant
            n == a.len() == b.len(),
            forall|k: int| 0 <= k < i ==> view_strings(a@)[k] == view_strings(b@)[k],
    {
        if !(a[i] == b[i]) {
            proof {
                assert(view_strings(a@)[i as int] != view_strings(b@)[i as int]);
            }
            return false;
        }
    }
    proof {
        assert(view_strings(a@) =~= view_strings(b@));
    }
    true
}

impl PartialEq for Expr {
    /// Two expressions are equal when their views are.
    fn eq(&self, other: &Expr) -> (r: bool) {
        self.expr_eq(other)
    }
}

impl vstd::std_specs::cmp::PartialEqSpecImpl for Expr {
    open spec fn obeys_eq_spec() -> bool {
        true
    }

    open spec fn eq_spec(&self, other: &Expr) -> bool {
        self@ == other@
    }
}

} // verus!
