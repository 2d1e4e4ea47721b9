//! Expression trees and the operators they may contain.
//!
//! An expression is a tree of literals, named columns and binary
//! nodes. Two expressions are matched by structural equality: same
//! shape, same operators, same literal values, same column names and
//! indices. Shared sub-expressions are deduplicated by the graph
//! builder through this equality.

use vstd::prelude::*;
use vstd::string::StringExecFns;

use crate::cp_solver::propagate_arithmetic;
use crate::cp_solver::propagate_comparison;
use crate::cp_solver::spec_propagate_arithmetic;
use crate::cp_solver::spec_propagate_comparison;
use crate::errors::DataFusionError;
use crate::interval::apply_operator;
use crate::interval::lemma_apply_wf;
use crate::interval::mk_bool;
use crate::interval::spec_apply;
use crate::interval::Interval;
use crate::scalar::ScalarValue;

verus! {

/// The operators an expression node may carry: arithmetic (`+`, `-`),
/// comparison (`>`, `<`) and conjunction.
#[derive(Clone, Copy, Debug, PartialEq, Eq, Hash, Structural)]
pub enum Operator {
    Plus,
    Minus,
    Gt,
    Lt,
    And,
}

impl Operator {
    /// True for the arithmetic operators `+` and `-`.
    pub open spec fn is_arithmetic(self) -> bool {
        self == Operator::Plus || self == Operator::Minus
    }

    /// True for the strict comparisons `>` and `<`.
    pub open spec fn is_comparison(self) -> bool {
        self == Operator::Gt || self == Operator::Lt
    }

    /// True for conjunction.
    pub open spec fn is_logic(self) -> bool {
        self == Operator::And
    }
}

/// A physical expression: a literal value, a named column, or a
/// binary operation over two sub-expressions.
#[derive(Debug)]
pub enum Expr {
    Literal(ScalarValue),
    Column(String, usize),
    Binary(Box<Expr>, Operator, Box<Expr>),
}

/// Structural equality of two expressions. Column names are compared
/// by their character sequences.
pub open spec fn expr_eq(a: Expr, b: Expr) -> bool
    decreases a,
{
    match (a, b) {
        (Expr::Literal(x), Expr::Literal(y)) => x == y,
        (Expr::Column(n1, i1), Expr::Column(n2, i2)) => n1@ == n2@ && i1 == i2,
        (Expr::Binary(l1, o1, r1), Expr::Binary(l2, o2, r2)) => o1 == o2 && expr_eq(*l1, *l2)
            && expr_eq(*r1, *r2),
        _ => false,
    }
}

/// Whether `sub` occurs, up to structural equality, inside `e`.
pub open spec fn is_subexpr(e: Expr, sub: Expr) -> bool
    decreases e,
{
    expr_eq(e, sub) || (match e {
        Expr::Binary(l, _, r) => is_subexpr(*l, sub) || is_subexpr(*r, sub),
        _ => false,
    })
}

/// Structural equality is reflexive.
pub proof fn lemma_expr_eq_refl(a: Expr)
    ensures
        expr_eq(a, a),
    decreases a,
{
    match a {
        Expr::Binary(l, _, r) => {
            lemma_expr_eq_refl(*l);
            lemma_expr_eq_refl(*r);
        },
        _ => {},
    }
}

/// Structural equality is symmetric.
pub proof fn lemma_expr_eq_sym(a: Expr, b: Expr)
    ensures
        expr_eq(a, b) == expr_eq(b, a),
    decreases a,
{
    match (a, b) {
        (Expr::Binary(l1, _, r1), Expr::Binary(l2, _, r2)) => {
            lemma_expr_eq_sym(*l1, *l2);
            lemma_expr_eq_sym(*r1, *r2);
        },
        _ => {},
    }
}

/// Structural equality is transitive.
pub proof fn lemma_expr_eq_trans(a: Expr, b: Expr, c: Expr)
    requires
        expr_eq(a, b),
        expr_eq(b, c),
    ensures
        expr_eq(a, c),
    decreases a,
{
    match (a, b, c) {
        (Expr::Binary(l1, _, r1), Expr::Binary(l2, _, r2), Expr::Binary(l3, _, r3)) => {
            lemma_expr_eq_trans(*l1, *l2, *l3);
            lemma_expr_eq_trans(*r1, *r2, *r3);
        },
        _ => {},
    }
}

/// Structural equality of two expressions, executable form.
pub fn deep_eq(a: &Expr, b: &Expr) -> (r: bool)
    ensures
        r == expr_eq(*a, *b),
    decreases *a,
{
    match (a, b) {
        (Expr::Literal(x), Expr::Literal(y)) => x == y,
        (Expr::Column(n1, i1), Expr::Column(n2, i2)) => n1.eq(n2) && i1 == i2,
        (Expr::Binary(l1, o1, r1), Expr::Binary(l2, o2, r2)) => *o1 == *o2 && deep_eq(l1, l2)
            && deep_eq(r1, r2),
        _ => false,
    }
}

impl PartialEq for Expr {
    fn eq(&self, other: &Expr) -> (r: bool) {
        deep_eq(self, other)
    }
}

impl vstd::std_specs::cmp::PartialEqSpecImpl for Expr {
    open spec fn obeys_eq_spec() -> bool {
        true
    }

    open spec fn eq_spec(&self, other: &Expr) -> bool {
        expr_eq(*self, *other)
    }
}

impl Clone for Expr {
    fn clone(&self) -> (r: Expr)
        ensures
            r == *self,
        decreases *self,
    {
        match self {
            Expr::Literal(v) => Expr::Literal(*v),
            Expr::Column(n, i) => Expr::Column(n.clone(), *i),
            Expr::Binary(l, op, r) => Expr::Binary(Box::new((**l).clone()), *op, Box::new(
                (**r).clone(),
            )),
        }
    }
}

/// What bottom-up evaluation of one node yields from its children's
/// intervals, or `None` when evaluation fails: literals produce their
/// singleton interval, binary nodes apply their operator, and columns
/// cannot be evaluated (their range must be seeded from outside).
pub open spec fn spec_evaluate_node(e: Expr, cs: Seq<Interval>) -> Option<Interval> {
    match e {
        Expr::Literal(v) => Some(Interval { lower: v, upper: v }),
        Expr::Column(_, _) => None,
        Expr::Binary(_, op, _) => if cs.len() == 2 {
            spec_apply(op, cs[0], cs[1])
        } else {
            None
        },
    }
}

/// What top-down propagation at one node yields: one refined interval
/// per child, an empty sequence when the node has nothing to
/// propagate (a conjunction, or a comparison already known false),
/// and `None` when propagation fails.
pub open spec fn spec_propagate_node(e: Expr, node_iv: Interval, cs: Seq<Interval>) -> Option<
    Seq<Option<Interval>>,
> {
    match e {
        Expr::Binary(_, op, _) => {
            if cs.len() != 2 {
                None
            } else if op.is_logic() {
                Some(Seq::empty())
            } else if op.is_comparison() {
                if node_iv == mk_bool(false, false) {
                    Some(Seq::empty())
                } else {
                    match spec_propagate_comparison(op, cs[0], cs[1]) {
                        None => None,
                        Some(p) => Some(seq![p.0, p.1]),
                    }
                }
            } else {
                match spec_propagate_arithmetic(op, node_iv, cs[0], cs[1]) {
                    None => None,
                    Some(p) => Some(seq![p.0, p.1]),
                }
            }
        },
        _ => None,
    }
}

impl Expr {
    /// Computes this node's interval from its children's intervals: a
    /// pure function of the arguments that never reads node state.
    pub fn evaluate_bounds(&self, children: &Vec<Interval>) -> (r: Result<
        Interval,
        DataFusionError,
    >)
        requires
            self is Binary ==> children@.len() == 2,
            forall|k: int| 0 <= k < children@.len() ==> (#[trigger] children@[k]).wf(),
        ensures
            r is Ok <==> spec_evaluate_node(*self, children@) is Some,
            r is Ok ==> Some(r->Ok_0) == spec_evaluate_node(*self, children@),
            r is Ok ==> r->Ok_0.wf(),
            self is Binary && r is Err ==> r == Err::<Interval, DataFusionError>(
                if children@[0].dt() != children@[1].dt() {
                    DataFusionError::TypeMismatch(children@[0].dt(), children@[1].dt())
                } else {
                    DataFusionError::UnsupportedType(children@[0].dt())
                },
            ),
    {
        match self {
            Expr::Literal(v) => Ok(Interval { lower: *v, upper: *v }),
            Expr::Column(_, _) => Err(
                DataFusionError::NotImplemented(
                    String::from_str("evaluating the bounds of a column"),
                ),
            ),
            Expr::Binary(_, op, _) => {
                let iv = apply_operator(op, &children[0], &children[1])?;
                proof {
                    lemma_apply_wf(*op, children@[0], children@[1]);
                }
                Ok(iv)
            },
        }
    }

    /// Refines the children's intervals from this node's interval: one
    /// refined interval per child, `None` marking an infeasible child.
    /// A conjunction, or a comparison whose own interval is already
    /// certainly false, returns an empty vector: nothing to propagate.
    pub fn propagate_constraints(&self, interval: &Interval, children: &Vec<Interval>) -> (r:
        Result<Vec<Option<Interval>>, DataFusionError>)
        requires
            self is Binary ==> children@.len() == 2,
            interval.wf(),
            forall|k: int| 0 <= k < children@.len() ==> (#[trigger] children@[k]).wf(),
        ensures
            r is Ok <==> spec_propagate_node(*self, *interval, children@) is Some,
            r is Ok ==> Some(r->Ok_0@) == spec_propagate_node(*self, *interval, children@),
            r is Ok ==> r->Ok_0@.len() == 0 || r->Ok_0@.len() == children@.len(),
            r is Ok ==> forall|k: int|
                0 <= k < r->Ok_0@.len() ==> ((#[trigger] r->Ok_0@[k]) matches Some(v) ==> v.wf()
                    && v.subset_of(children@[k])),
    {
        match self {
            Expr::Binary(_, op, _) => {
                match op {
                    Operator::And => {
                        let out: Vec<Option<Interval>> = Vec::new();
                        assert(out@ =~= Seq::<Option<Interval>>::empty());
                        Ok(out)
                    },
                    Operator::Gt | Operator::Lt => {
                        let certainly_false = matches!(
                            (&interval.lower, &interval.upper),
                            (ScalarValue::Boolean(Some(false)), ScalarValue::Boolean(Some(false)))
                        );
                        if certainly_false {
                            let out: Vec<Option<Interval>> = Vec::new();
                            assert(out@ =~= Seq::<Option<Interval>>::empty());
                            Ok(out)
                        } else {
                            let p = propagate_comparison(op, &children[0], &children[1])?;
                            let mut out: Vec<Option<Interval>> = Vec::new();
                            out.push(p.0);
                            out.push(p.1);
                            assert(out@ =~= seq![p.0, p.1]);
                            Ok(out)
                        }
                    },
                    Operator::Plus | Operator::Minus => {
                        let p = propagate_arithmetic(op, interval, &children[0], &children[1])?;
                        let mut out: Vec<Option<Interval>> = Vec::new();
                        out.push(p.0);
                        out.push(p.1);
                        assert(out@ =~= seq![p.0, p.1]);
                        Ok(out)
                    },
                }
            },
            _ => Err(
                DataFusionError::NotImplemented(
                    String::from_str("propagating constraints through a leaf"),
                ),
            ),
        }
    }

    /// The ordered children of the expression, left to right.
    pub fn children(&self) -> (cs: Vec<Expr>)
        ensures
            self is Binary ==> cs@ =~= seq![*self->Binary_0, *self->Binary_2],
            !(self is Binary) ==> cs@ =~= Seq::<Expr>::empty(),
    {
        match self {
            Expr::Binary(l, _, r) => {
                let mut cs: Vec<Expr> = Vec::new();
                cs.push((**l).clone());
                cs.push((**r).clone());
                cs
            },
            _ => Vec::new(),
        }
    }
}

} // verus!
