//! Constraint propagator/solver for expression graphs.
//!
//! A tree-shaped expression with possibly shared sub-expressions is
//! turned into a directed acyclic expression graph (DAEG), keyed by
//! structural identity. Seeding the leaves with known ranges, a
//! bottom-up pass computes bounds for every sub-expression, and a
//! top-down pass tightens the leaf ranges so they stay consistent with
//! the root predicate being satisfiable.

use vstd::prelude::*;

use crate::errors::DataFusionError;
use crate::expr::deep_eq;
use crate::expr::expr_eq;
use crate::expr::is_subexpr;
use crate::expr::lemma_expr_eq_refl;
use crate::expr::lemma_expr_eq_sym;
use crate::expr::lemma_expr_eq_trans;
use crate::expr::Expr;
use crate::expr::Operator;
use crate::interval::lemma_apply_wf;
use crate::interval::lemma_intersect_props;
use crate::interval::mk_num;
use crate::interval::spec_apply;
use crate::interval::spec_intersect;
use crate::interval::Interval;
use crate::scalar::DataType;
use crate::scalar::ScalarValue;

verus! {

/// This object encapsulates all possible constraint propagation
/// results.
#[derive(PartialEq, Eq, Structural, Debug)]
pub enum PropagationResult {
    CannotPropagate,
    Infeasible,
    Success,
}

/// A node in the DAEG: an expression together with the current
/// best-known bounds for the sub-expression rooted at it.
#[derive(Debug)]
pub struct ExprIntervalGraphNode {
    expr: Expr,
    interval: Interval,
}

impl ExprIntervalGraphNode {
    /// The expression this node stands for.
    pub closed spec fn spec_expr(self) -> Expr {
        self.expr
    }

    /// The node's current interval.
    pub closed spec fn spec_interval(self) -> Interval {
        self.interval
    }

    /// Constructs a new DAEG node with an unbounded range.
    pub fn new(expr: Expr) -> (r: ExprIntervalGraphNode)
        ensures
            r.spec_expr() == expr,
            r.spec_interval() == Interval::spec_default(),
    {
        ExprIntervalGraphNode { expr, interval: Interval::default() }
    }

    /// Constructs a new DAEG node with the given range.
    pub fn new_with_interval(expr: Expr, interval: Interval) -> (r: ExprIntervalGraphNode)
        ensures
            r.spec_expr() == expr,
            r.spec_interval() == interval,
    {
        ExprIntervalGraphNode { expr, interval }
    }

    /// The interval object representing the range of the expression.
    pub fn interval(&self) -> (r: &Interval)
        ensures
            *r == self.spec_interval(),
    {
        &self.interval
    }

    /// The interval a freshly built node carries: literals are born
    /// with a singleton interval, anything else starts unbounded.
    pub open spec fn spec_make_interval(expr: Expr) -> Interval {
        match expr {
            Expr::Literal(v) => Interval { lower: v, upper: v },
            _ => Interval::spec_default(),
        }
    }

    /// Creates a DAEG node for an expression: literals get a definite,
    /// singleton interval, any other expression starts with an
    /// indefinite interval.
    pub fn make_node(expr: &Expr) -> (r: ExprIntervalGraphNode)
        ensures
            r.spec_expr() == *expr,
            r.spec_interval() == ExprIntervalGraphNode::spec_make_interval(*expr),
    {
        match expr {
            Expr::Literal(v) => ExprIntervalGraphNode::new_with_interval(
                expr.clone(),
                Interval { lower: *v, upper: *v },
            ),
            _ => ExprIntervalGraphNode::new(expr.clone()),
        }
    }
}

impl PartialEq for ExprIntervalGraphNode {
    fn eq(&self, other: &ExprIntervalGraphNode) -> (r: bool) {
        deep_eq(&self.expr, &other.expr)
    }
}

impl vstd::std_specs::cmp::PartialEqSpecImpl for ExprIntervalGraphNode {
    open spec fn obeys_eq_spec() -> bool {
        true
    }

    open spec fn eq_spec(&self, other: &ExprIntervalGraphNode) -> bool {
        expr_eq(self.spec_expr(), other.spec_expr())
    }
}

/// The inverse of an arithmetic operator.
pub open spec fn spec_inverse(op: Operator) -> Operator {
    if op is Plus {
        Operator::Minus
    } else {
        Operator::Plus
    }
}

/// Returns the inverse operator of the given arithmetic operator.
fn get_inverse_op(op: Operator) -> (r: Operator)
    requires
        op.is_arithmetic(),
    ensures
        r == spec_inverse(op),
{
    match op {
        Operator::Plus => Operator::Minus,
        _ => Operator::Plus,
    }
}

/// What arithmetic propagation yields: `None` marks a datatype error,
/// `Some((None, None))` an infeasible left child, and otherwise the
/// refined child intervals.
pub open spec fn spec_propagate_arithmetic(
    op: Operator,
    parent: Interval,
    left: Interval,
    right: Interval,
) -> Option<(Option<Interval>, Option<Interval>)> {
    let inv = spec_inverse(op);
    match spec_apply(inv, parent, right) {
        None => None,
        Some(li) => if li.dt() != left.dt() {
            None
        } else {
            match spec_intersect(li, left) {
                None => Some((None, None)),
                Some(new_left) => {
                    let ri = if op is Minus {
                        spec_apply(Operator::Minus, new_left, parent)
                    } else {
                        spec_apply(inv, parent, new_left)
                    };
                    match ri {
                        None => None,
                        Some(riv) => if riv.dt() != right.dt() {
                            None
                        } else {
                            Some((Some(new_left), spec_intersect(riv, right)))
                        },
                    }
                },
            }
        },
    }
}

/// Refines the intervals of the two children of an arithmetic node
/// from the parent's interval, using the inverse operator: first the
/// left child is tightened against the parent and the right child,
/// then the right child against the parent and the new left child. An
/// empty intersection short-circuits to `(None, None)`, reporting
/// infeasibility.
pub fn propagate_arithmetic(
    op: &Operator,
    parent: &Interval,
    left_child: &Interval,
    right_child: &Interval,
) -> (r: Result<(Option<Interval>, Option<Interval>), DataFusionError>)
    requires
        op.is_arithmetic(),
        parent.wf(),
        left_child.wf(),
        right_child.wf(),
    ensures
        r is Ok <==> spec_propagate_arithmetic(*op, *parent, *left_child, *right_child) is Some,
        r is Ok ==> Some(r->Ok_0) == spec_propagate_arithmetic(
            *op,
            *parent,
            *left_child,
            *right_child,
        ),
        r is Ok ==> (r->Ok_0.0 matches Some(v) ==> v.wf() && v.subset_of(*left_child)),
        r is Ok ==> (r->Ok_0.1 matches Some(v) ==> v.wf() && v.subset_of(*right_child)),
        r is Ok && r->Ok_0.0 is None ==> r->Ok_0.1 is None,
{
    let inverse_op = get_inverse_op(*op);
    let applied = crate::interval::apply_operator(&inverse_op, parent, right_child)?;
    proof {
        lemma_apply_wf(spec_inverse(*op), *parent, *right_child);
    }
    match applied.intersect(left_child)? {
        Some(value) => {
            proof {
                lemma_intersect_props(applied, *left_child);
            }
            let right = match op {
                Operator::Minus => crate::interval::apply_operator(op, &value, parent),
                _ => crate::interval::apply_operator(&inverse_op, parent, &value),
            }?;
            proof {
                if *op is Minus {
                    lemma_apply_wf(Operator::Minus, value, *parent);
                } else {
                    lemma_apply_wf(spec_inverse(*op), *parent, value);
                }
            }
            let new_right = right.intersect(right_child)?;
            proof {
                lemma_intersect_props(right, *right_child);
            }
            Ok((Some(value), new_right))
        },
        None => Ok((None, None)),
    }
}

/// The target parent interval of a comparison: `x > y` forces the
/// synthetic expression `x - y` into `[0, +inf)`, and `x < y` forces
/// it into `(-inf, 0]`.
pub open spec fn spec_comparison_target(dt: DataType, op: Operator) -> Interval {
    if op is Gt {
        mk_num(dt, Some(0), None)
    } else {
        mk_num(dt, None, Some(0))
    }
}

/// Provides the target parent interval for a comparison operator.
/// Only strict inequalities are supported, since open/closed interval
/// endpoints are not implemented yet.
fn comparison_operator_target(datatype: DataType, op: &Operator) -> (r: Result<
    Interval,
    DataFusionError,
>)
    requires
        op.is_comparison(),
    ensures
        r is Ok <==> datatype != DataType::Boolean,
        r is Ok ==> r->Ok_0 == spec_comparison_target(datatype, *op),
{
    let unbounded = ScalarValue::new_unbounded(datatype);
    let zero = match ScalarValue::new_zero(datatype) {
        Ok(z) => z,
        Err(e) => {
            return Err(e);
        },
    };
    match *op {
        Operator::Gt => Ok(Interval { lower: zero, upper: unbounded }),
        _ => Ok(Interval { lower: unbounded, upper: zero }),
    }
}

/// What comparison propagation yields, by delegation to arithmetic
/// propagation over `left - right` against the comparison target.
pub open spec fn spec_propagate_comparison(op: Operator, left: Interval, right: Interval) -> Option<
    (Option<Interval>, Option<Interval>),
> {
    if left.dt() == DataType::Boolean {
        None
    } else {
        spec_propagate_arithmetic(
            Operator::Minus,
            spec_comparison_target(left.dt(), op),
            left,
            right,
        )
    }
}

/// Propagates the constraint of a comparison such as `x > y` through
/// the equivalent statement `x - y > 0`, tightening both children.
pub fn propagate_comparison(op: &Operator, left_child: &Interval, right_child: &Interval) -> (r:
    Result<(Option<Interval>, Option<Interval>), DataFusionError>)
    requires
        op.is_comparison(),
        left_child.wf(),
        right_child.wf(),
    ensures
        r is Ok <==> spec_propagate_comparison(*op, *left_child, *right_child) is Some,
        r is Ok ==> Some(r->Ok_0) == spec_propagate_comparison(*op, *left_child, *right_child),
        r is Ok ==> (r->Ok_0.0 matches Some(v) ==> v.wf() && v.subset_of(*left_child)),
        r is Ok ==> (r->Ok_0.1 matches Some(v) ==> v.wf() && v.subset_of(*right_child)),
        r is Ok && r->Ok_0.0 is None ==> r->Ok_0.1 is None,
{
    let dt = left_child.get_datatype();
    let parent = comparison_operator_target(dt, op)?;
    proof {
        crate::interval::lemma_mk_num(
            dt,
            if *op is Gt {
                Some(0int)
            } else {
                None
            },
            if *op is Gt {
                None
            } else {
                Some(0int)
            },
        );
    }
    propagate_arithmetic(&Operator::Minus, &parent, left_child, right_child)
}

/// Whether slot `i` of a node table holds a live node.
pub open spec fn tbl_live(ns: Seq<Option<ExprIntervalGraphNode>>, i: int) -> bool {
    0 <= i < ns.len() && ns[i] is Some
}

/// The expression of the live node in slot `i`.
pub open spec fn tbl_expr(ns: Seq<Option<ExprIntervalGraphNode>>, i: int) -> Expr {
    ns[i]->0.spec_expr()
}

/// The interval of the live node in slot `i`.
pub open spec fn tbl_iv(ns: Seq<Option<ExprIntervalGraphNode>>, i: int) -> Interval {
    ns[i]->0.spec_interval()
}

/// Well-formedness of a node table with its adjacency lists: one
/// child list per slot; edges lead from live nodes to live nodes of
/// strictly smaller index (nodes are created after their children);
/// dead slots have no edges; a node either is a leaf or is a binary
/// expression whose two listed children hold exactly its two
/// sub-expressions; no two live nodes hold structurally equal
/// expressions; and every live node's interval is well-formed.
pub open spec fn tbl_wf(ns: Seq<Option<ExprIntervalGraphNode>>, ch: Seq<Vec<usize>>) -> bool {
    &&& ns.len() == ch.len()
    &&& forall|i: int|
        #[trigger] tbl_live(ns, i) ==> forall|k: int|
            0 <= k < ch[i]@.len() ==> (#[trigger] ch[i]@[k] as int) < i && tbl_live(
                ns,
                ch[i]@[k] as int,
            )
    &&& forall|i: int| 0 <= i < ns.len() && !tbl_live(ns, i) ==> (#[trigger] ch[i]@).len() == 0
    &&& forall|i: int|
        #[trigger] tbl_live(ns, i) ==> (ch[i]@.len() == 0 || (ch[i]@.len() == 2 && tbl_expr(ns, i)
            is Binary && expr_eq(tbl_expr(ns, ch[i]@[0] as int), *tbl_expr(ns, i)->Binary_0)
            && expr_eq(tbl_expr(ns, ch[i]@[1] as int), *tbl_expr(ns, i)->Binary_2)))
    &&& forall|i: int, j: int|
        tbl_live(ns, i) && tbl_live(ns, j) && i != j ==> !expr_eq(
            #[trigger] tbl_expr(ns, i),
            #[trigger] tbl_expr(ns, j),
        )
    &&& forall|i: int| #[trigger] tbl_live(ns, i) ==> tbl_iv(ns, i).wf()
}

/// Fullness of a node table: every slot is live, and a node has its
/// two child edges exactly when its expression is binary. This holds
/// of freshly built tables, before any pruning.
pub open spec fn tbl_full(ns: Seq<Option<ExprIntervalGraphNode>>, ch: Seq<Vec<usize>>) -> bool {
    &&& forall|i: int| 0 <= i < ns.len() ==> #[trigger] tbl_live(ns, i)
    &&& forall|i: int|
        #[trigger] tbl_live(ns, i) ==> ch[i]@.len() == (if tbl_expr(ns, i) is Binary {
            2int
        } else {
            0int
        })
}

/// Finds the live node holding an expression structurally equal to
/// `e`, if there is one.
fn find_node(nodes: &Vec<Option<ExprIntervalGraphNode>>, e: &Expr) -> (r: Option<usize>)
    ensures
        r matches Some(j) ==> j < nodes@.len() && tbl_live(nodes@, j as int) && expr_eq(
            tbl_expr(nodes@, j as int),
            *e,
        ),
        r is None ==> forall|j: int|
            #[trigger] tbl_live(nodes@, j) ==> !expr_eq(tbl_expr(nodes@, j), *e),
{
    let n = nodes.len();
    let mut i: usize = 0;
    while i < n
        invariant
            n == nodes@.len(),
            i <= n,
            forall|j: int|
                0 <= j < i && #[trigger] tbl_live(nodes@, j) ==> !expr_eq(tbl_expr(nodes@, j), *e),
        decreases n - i,
    {
        match &nodes[i] {
            Some(nd) => {
                if deep_eq(&nd.expr, e) {
                    return Some(i);
                }
            },
            None => {},
        }
        i = i + 1;
    }
    None
}

/// Arithmetic propagation is idempotent: propagating the same parent
/// interval once more through the already-tightened children leaves
/// both children unchanged.
#[verifier::rlimit(100)]
pub proof fn lemma_propagate_arithmetic_idempotent(
    op: Operator,
    p: Interval,
    l: Interval,
    r: Interval,
)
    requires
        op.is_arithmetic(),
        p.wf(),
        l.wf(),
        r.wf(),
    ensures
        spec_propagate_arithmetic(op, p, l, r) matches Some((Some(nl), Some(nr)))
            ==> spec_propagate_arithmetic(op, p, nl, nr) == Some((Some(nl), Some(nr))),
{
    let res = spec_propagate_arithmetic(op, p, l, r);
    if res is Some && (res->0).0 is Some && (res->0).1 is Some {
        let nl = ((res->0).0)->0;
        let nr = ((res->0).1)->0;
        let inv = spec_inverse(op);
        lemma_apply_wf(inv, p, r);
        let li = spec_apply(inv, p, r)->0;
        lemma_intersect_props(li, l);
        if op is Plus {
            let riv = spec_apply(inv, p, nl)->0;
            lemma_apply_wf(inv, p, nl);
            lemma_intersect_props(riv, r);
            crate::interval::lemma_sub_of_refined(p, nl, nr, r);
            lemma_apply_wf(inv, p, nr);
            crate::interval::lemma_intersect_absorb(crate::interval::spec_sub(p, nr), nl);
            crate::interval::lemma_intersect_absorb(riv, nr);
        } else {
            let riv = spec_apply(Operator::Minus, nl, p)->0;
            lemma_apply_wf(Operator::Minus, nl, p);
            lemma_intersect_props(riv, r);
            crate::interval::lemma_add_of_refined(p, nl, nr, r);
            lemma_apply_wf(inv, p, nr);
            crate::interval::lemma_intersect_absorb(crate::interval::spec_add(p, nr), nl);
            crate::interval::lemma_intersect_absorb(riv, nr);
        }
    }
}

/// Comparison propagation is idempotent too: its target interval is
/// fixed by the operator and the children's datatype, so propagating
/// again through the tightened children changes nothing.
pub proof fn lemma_propagate_comparison_idempotent(op: Operator, l: Interval, r: Interval)
    requires
        op.is_comparison(),
        l.wf(),
        r.wf(),
    ensures
        spec_propagate_comparison(op, l, r) matches Some((Some(nl), Some(nr)))
            ==> spec_propagate_comparison(op, nl, nr) == Some((Some(nl), Some(nr))),
{
    let res = spec_propagate_comparison(op, l, r);
    if res is Some && (res->0).0 is Some && (res->0).1 is Some {
        let nl = ((res->0).0)->0;
        let nr = ((res->0).1)->0;
        let target = spec_comparison_target(l.dt(), op);
        crate::interval::lemma_mk_num(
            l.dt(),
            if op is Gt {
                Some(0int)
            } else {
                None
            },
            if op is Gt {
                None
            } else {
                Some(0int)
            },
        );
        lemma_apply_wf(Operator::Plus, target, r);
        let li = spec_apply(Operator::Plus, target, r)->0;
        lemma_intersect_props(li, l);
        assert(nl.dt() == l.dt());
        lemma_propagate_arithmetic_idempotent(Operator::Minus, target, l, r);
    }
}

/// A table with every slot live has as many live nodes as slots.
proof fn lemma_count_live_full(ns: Seq<Option<ExprIntervalGraphNode>>)
    requires
        forall|i: int| 0 <= i < ns.len() ==> #[trigger] tbl_live(ns, i),
    ensures
        ExprIntervalGraph::count_live(ns) == ns.len(),
    decreases ns.len(),
{
    if ns.len() > 0 {
        assert(tbl_live(ns, ns.len() - 1));
        assert forall|i: int| 0 <= i < ns.drop_last().len() implies tbl_live(
            ns.drop_last(),
            i,
        ) by {
            assert(tbl_live(ns, i));
        }
        lemma_count_live_full(ns.drop_last());
    }
}

/// The set of live slots of a node table.
pub open spec fn tbl_live_set(ns: Seq<Option<ExprIntervalGraphNode>>) -> Set<int> {
    Set::new(|i: int| tbl_live(ns, i))
}

/// The live-node count is the cardinality of the set of live slots.
proof fn lemma_count_live_is_card(ns: Seq<Option<ExprIntervalGraphNode>>)
    ensures
        tbl_live_set(ns).finite(),
        ExprIntervalGraph::count_live(ns) == tbl_live_set(ns).len(),
    decreases ns.len(),
{
    broadcast use vstd::set::group_set_axioms;

    if ns.len() == 0 {
        assert(tbl_live_set(ns) =~= Set::<int>::empty());
    } else {
        let prefix = ns.drop_last();
        lemma_count_live_is_card(prefix);
        if ns.last() is Some {
            assert(tbl_live_set(ns) =~= tbl_live_set(prefix).insert(ns.len() - 1));
            assert(!tbl_live_set(prefix).contains(ns.len() - 1));
            vstd::set::axiom_set_insert_len(tbl_live_set(prefix), ns.len() - 1);
        } else {
            assert(tbl_live_set(ns) =~= tbl_live_set(prefix));
        }
    }
}

/// The interval a freshly built node carries is always well-formed.
proof fn lemma_make_interval_wf(e: Expr)
    ensures
        ExprIntervalGraphNode::spec_make_interval(e).wf(),
{
    match e {
        Expr::Literal(v) => {
            match v {
                ScalarValue::Int32(_) => {},
                ScalarValue::Int64(_) => {},
                ScalarValue::Boolean(_) => {},
            }
        },
        _ => {},
    }
}

/// Appends one fresh node for `e`, with the given child list, to a
/// table that holds no node equal to `e` yet.
fn push_node(
    nodes: &mut Vec<Option<ExprIntervalGraphNode>>,
    children: &mut Vec<Vec<usize>>,
    e: &Expr,
    ks: Vec<usize>,
) -> (idx: usize)
    requires
        tbl_wf(old(nodes)@, old(children)@),
        tbl_full(old(nodes)@, old(children)@),
        forall|j: int|
            #[trigger] tbl_live(old(nodes)@, j) ==> !expr_eq(tbl_expr(old(nodes)@, j), *e)
                && !expr_eq(*e, tbl_expr(old(nodes)@, j)),
        *e is Binary ==> (ks@.len() == 2 && tbl_live(old(nodes)@, ks@[0] as int) && tbl_live(
            old(nodes)@,
            ks@[1] as int,
        ) && expr_eq(tbl_expr(old(nodes)@, ks@[0] as int), *((*e)->Binary_0)) && expr_eq(
            tbl_expr(old(nodes)@, ks@[1] as int),
            *((*e)->Binary_2),
        )),
        !(*e is Binary) ==> ks@.len() == 0,
    ensures
        tbl_wf(final(nodes)@, final(children)@),
        tbl_full(final(nodes)@, final(children)@),
        final(nodes)@.len() == old(nodes)@.len() + 1,
        final(children)@.len() == final(nodes)@.len(),
        forall|i: int| 0 <= i < old(nodes)@.len() ==> #[trigger] final(nodes)@[i] == old(nodes)@[i],
        forall|i: int|
            0 <= i < old(nodes)@.len() ==> (#[trigger] final(children)@[i])@ == old(
                children,
            )@[i]@,
        idx as int == old(nodes)@.len(),
        tbl_live(final(nodes)@, idx as int),
        tbl_expr(final(nodes)@, idx as int) == *e,
        tbl_iv(final(nodes)@, idx as int) == ExprIntervalGraphNode::spec_make_interval(*e),
{
    let ghost ns0 = nodes@;
    let ghost ch0 = children@;
    let ghost n0 = nodes@.len() as int;
    let idx = nodes.len();
    let nd = ExprIntervalGraphNode::make_node(e);
    nodes.push(Some(nd));
    children.push(ks);
    proof {
        let ns1 = nodes@;
        let ch1 = children@;
        lemma_make_interval_wf(*e);
        assert forall|i: int| 0 <= i < n0 implies #[trigger] tbl_live(ns1, i) == tbl_live(ns0, i)
            && ch1[i] == ch0[i] by {}
        assert forall|i: int| #[trigger] tbl_live(ns1, i) implies forall|k: int|
            0 <= k < ch1[i]@.len() ==> (#[trigger] ch1[i]@[k] as int) < i && tbl_live(
                ns1,
                ch1[i]@[k] as int,
            ) by {
            if i < n0 {
                assert(tbl_live(ns0, i));
                assert(ch1[i]@ == ch0[i]@);
                assert forall|k: int| 0 <= k < ch0[i]@.len() implies (
                #[trigger] ch0[i]@[k] as int) < i && tbl_live(ns1, ch0[i]@[k] as int) by {
                    assert(tbl_live(ns0, ch0[i]@[k] as int));
                }
            } else {
                assert(i == n0);
                assert(ch1[i]@ == ks@);
            }
        }
        assert forall|i: int| 0 <= i < ns1.len() && !tbl_live(ns1, i) implies (
        #[trigger] ch1[i]@).len() == 0 by {
            assert(i < n0);
            assert(!tbl_live(ns0, i));
        }
        assert forall|i: int| #[trigger] tbl_live(ns1, i) implies (ch1[i]@.len() == 0 || (
        ch1[i]@.len() == 2 && tbl_expr(ns1, i) is Binary && expr_eq(
            tbl_expr(ns1, ch1[i]@[0] as int),
            *tbl_expr(ns1, i)->Binary_0,
        ) && expr_eq(tbl_expr(ns1, ch1[i]@[1] as int), *tbl_expr(ns1, i)->Binary_2))) by {
            if i < n0 {
                assert(tbl_live(ns0, i));
                assert(ch1[i]@ == ch0[i]@);
                assert(tbl_expr(ns1, i) == tbl_expr(ns0, i));
                if ch0[i]@.len() == 2 {
                    assert(tbl_expr(ns1, ch0[i]@[0] as int) == tbl_expr(ns0, ch0[i]@[0] as int));
                    assert(tbl_expr(ns1, ch0[i]@[1] as int) == tbl_expr(ns0, ch0[i]@[1] as int));
                }
            } else {
                assert(tbl_expr(ns1, i) == *e);
                if ks@.len() == 2 {
                    assert(tbl_expr(ns1, ks@[0] as int) == tbl_expr(ns0, ks@[0] as int));
                    assert(tbl_expr(ns1, ks@[1] as int) == tbl_expr(ns0, ks@[1] as int));
                }
            }
        }
        assert forall|i: int, j: int|
            tbl_live(ns1, i) && tbl_live(ns1, j) && i != j implies !expr_eq(
                #[trigger] tbl_expr(ns1, i),
                #[trigger] tbl_expr(ns1, j),
            ) by {
            if i < n0 && j < n0 {
                assert(tbl_live(ns0, i) && tbl_live(ns0, j));
                assert(tbl_expr(ns1, i) == tbl_expr(ns0, i));
                assert(tbl_expr(ns1, j) == tbl_expr(ns0, j));
            } else if i == n0 {
                assert(tbl_live(ns0, j));
                assert(tbl_expr(ns1, j) == tbl_expr(ns0, j));
                assert(!expr_eq(*e, tbl_expr(ns0, j)));
            } else {
                assert(j == n0);
                assert(tbl_live(ns0, i));
                assert(tbl_expr(ns1, i) == tbl_expr(ns0, i));
                assert(!expr_eq(tbl_expr(ns0, i), *e));
            }
        }
        assert forall|i: int| #[trigger] tbl_live(ns1, i) implies tbl_iv(ns1, i).wf() by {
            if i < n0 {
                assert(tbl_live(ns0, i));
                assert(tbl_iv(ns1, i) == tbl_iv(ns0, i));
            }
        }
        assert forall|i: int| #[trigger] tbl_live(ns1, i) implies ch1[i]@.len() == (if tbl_expr(
            ns1,
            i,
        ) is Binary {
            2int
        } else {
            0int
        }) by {
            if i < n0 {
                assert(tbl_live(ns0, i));
                assert(ch1[i] == ch0[i]);
                assert(tbl_expr(ns1, i) == tbl_expr(ns0, i));
            } else {
                assert(ch1[i]@ == ks@);
                assert(tbl_expr(ns1, i) == *e);
            }
        }
    }
    idx
}

/// Adds the DAG rooted at `e` to the node table, reusing any existing
/// node whose expression is structurally equal (a post-order walk, so
/// every node is created after its children). Returns the slot of the
/// node holding `e`.
fn add_expr(
    nodes: &mut Vec<Option<ExprIntervalGraphNode>>,
    children: &mut Vec<Vec<usize>>,
    e: &Expr,
) -> (idx: usize)
    requires
        tbl_wf(old(nodes)@, old(children)@),
        tbl_full(old(nodes)@, old(children)@),
    ensures
        tbl_wf(final(nodes)@, final(children)@),
        tbl_full(final(nodes)@, final(children)@),
        final(nodes)@.len() >= old(nodes)@.len(),
        final(children)@.len() == final(nodes)@.len(),
        forall|i: int| 0 <= i < old(nodes)@.len() ==> #[trigger] final(nodes)@[i] == old(nodes)@[i],
        forall|i: int|
            0 <= i < old(nodes)@.len() ==> (#[trigger] final(children)@[i])@ == old(
                children,
            )@[i]@,
        forall|j: int|
            old(nodes)@.len() <= j < final(nodes)@.len() ==> #[trigger] tbl_live(final(nodes)@, j)
                && tbl_iv(final(nodes)@, j) == ExprIntervalGraphNode::spec_make_interval(
                tbl_expr(final(nodes)@, j),
            ) && is_subexpr(*e, tbl_expr(final(nodes)@, j)),
        forall|sub: Expr|
            #[trigger] is_subexpr(*e, sub) ==> exists|j: int|
                tbl_live(final(nodes)@, j) && expr_eq(tbl_expr(final(nodes)@, j), sub),
        idx < final(nodes)@.len(),
        tbl_live(final(nodes)@, idx as int),
        expr_eq(tbl_expr(final(nodes)@, idx as int), *e),
    decreases *e,
{
    match e {
        Expr::Binary(l, _, r) => {
            let ghost ns_a = nodes@;
            let li = add_expr(nodes, children, &**l);
            let ghost ns_b = nodes@;
            let ri = add_expr(nodes, children, &**r);
            let ghost ns_c = nodes@;
            proof {
                assert(tbl_live(ns_c, li as int));
                assert(tbl_expr(ns_c, li as int) == tbl_expr(ns_b, li as int));
                lemma_expr_eq_refl(*e);
            }
            let idx = match find_node(nodes, e) {
                Some(j) => j,
                None => {
                    proof {
                        assert forall|j: int| #[trigger] tbl_live(nodes@, j) implies !expr_eq(
                            tbl_expr(nodes@, j),
                            *e,
                        ) && !expr_eq(*e, tbl_expr(nodes@, j)) by {
                            lemma_expr_eq_sym(*e, tbl_expr(nodes@, j));
                        }
                    }
                    let mut ks: Vec<usize> = Vec::new();
                    ks.push(li);
                    ks.push(ri);
                    push_node(nodes, children, e, ks)
                },
            };
            proof {
                let nsf = nodes@;
                assert forall|j: int| ns_a.len() <= j < nsf.len() implies #[trigger] tbl_live(
                    nsf,
                    j,
                ) && tbl_iv(nsf, j) == ExprIntervalGraphNode::spec_make_interval(
                    tbl_expr(nsf, j),
                ) && is_subexpr(*e, tbl_expr(nsf, j)) by {
                    if j < ns_b.len() {
                        assert(tbl_live(ns_b, j));
                        assert(is_subexpr(**l, tbl_expr(ns_b, j)));
                        assert(ns_c[j] == ns_b[j]);
                        assert(nsf[j] == ns_c[j]);
                    } else if j < ns_c.len() {
                        assert(tbl_live(ns_c, j));
                        assert(is_subexpr(**r, tbl_expr(ns_c, j)));
                        assert(nsf[j] == ns_c[j]);
                    } else {
                        assert(tbl_expr(nsf, j) == *e);
                        lemma_expr_eq_refl(*e);
                    }
                }
                assert forall|sub: Expr| #[trigger] is_subexpr(*e, sub) implies exists|j: int|
                    tbl_live(nsf, j) && expr_eq(tbl_expr(nsf, j), sub) by {
                    if expr_eq(*e, sub) {
                        lemma_expr_eq_trans(tbl_expr(nsf, idx as int), *e, sub);
                        assert(tbl_live(nsf, idx as int) && expr_eq(
                            tbl_expr(nsf, idx as int),
                            sub,
                        ));
                    } else if is_subexpr(**l, sub) {
                        let j = choose|j: int|
                            tbl_live(ns_b, j) && expr_eq(tbl_expr(ns_b, j), sub);
                        assert(ns_c[j] == ns_b[j]);
                        assert(nsf[j] == ns_c[j]);
                        assert(tbl_live(nsf, j) && expr_eq(tbl_expr(nsf, j), sub));
                    } else {
                        assert(is_subexpr(**r, sub));
                        let j = choose|j: int|
                            tbl_live(ns_c, j) && expr_eq(tbl_expr(ns_c, j), sub);
                        assert(nsf[j] == ns_c[j]);
                        assert(tbl_live(nsf, j) && expr_eq(tbl_expr(nsf, j), sub));
                    }
                }
            }
            idx
        },
        _ => {
            let idx = match find_node(nodes, e) {
                Some(j) => j,
                None => {
                    proof {
                        assert forall|j: int| #[trigger] tbl_live(nodes@, j) implies !expr_eq(
                            tbl_expr(nodes@, j),
                            *e,
                        ) && !expr_eq(*e, tbl_expr(nodes@, j)) by {
                            lemma_expr_eq_sym(*e, tbl_expr(nodes@, j));
                        }
                    }
                    push_node(nodes, children, e, Vec::new())
                },
            };
            proof {
                let nsf = nodes@;
                lemma_expr_eq_refl(*e);
                assert(expr_eq(tbl_expr(nsf, idx as int), *e));
                assert forall|sub: Expr| #[trigger] is_subexpr(*e, sub) implies exists|j: int|
                    tbl_live(nsf, j) && expr_eq(tbl_expr(nsf, j), sub) by {
                    assert(expr_eq(*e, sub));
                    lemma_expr_eq_trans(tbl_expr(nsf, idx as int), *e, sub);
                    assert(tbl_live(nsf, idx as int) && expr_eq(tbl_expr(nsf, idx as int), sub));
                }
            }
            idx
        },
    }
}

/// A directed acyclic expression graph (DAEG) used to compute ranges
/// for expressions through interval arithmetic. Node handles are
/// stable: pruning empties a slot without renumbering the others.
pub struct ExprIntervalGraph {
    nodes: Vec<Option<ExprIntervalGraphNode>>,
    children: Vec<Vec<usize>>,
    root: usize,
}

impl ExprIntervalGraph {
    /// The number of slots (live or dead) in the graph.
    pub closed spec fn n(self) -> int {
        self.nodes@.len() as int
    }

    /// The root node's handle.
    pub closed spec fn spec_root(self) -> int {
        self.root as int
    }

    /// Whether slot `i` holds a live node.
    pub closed spec fn live(self, i: int) -> bool {
        tbl_live(self.nodes@, i)
    }

    /// The expression at live slot `i`.
    pub closed spec fn expr_at(self, i: int) -> Expr {
        tbl_expr(self.nodes@, i)
    }

    /// The interval at live slot `i`.
    pub closed spec fn interval_at(self, i: int) -> Interval {
        tbl_iv(self.nodes@, i)
    }

    /// The ordered child handles of slot `i` (left to right).
    pub closed spec fn kids(self, i: int) -> Seq<usize> {
        self.children@[i]@
    }

    /// All node intervals, as one sequence indexed by slot.
    pub open spec fn ivs(self) -> Seq<Interval> {
        Seq::new(self.n() as nat, |i: int| self.interval_at(i))
    }

    /// Graph well-formedness: a well-formed node table plus a live
    /// root.
    pub closed spec fn wf(self) -> bool {
        &&& tbl_wf(self.nodes@, self.children@)
        &&& self.live(self.spec_root())
    }

    /// The number of live nodes in a node table prefix.
    pub open spec fn count_live(ns: Seq<Option<ExprIntervalGraphNode>>) -> int
        decreases ns.len(),
    {
        if ns.len() == 0 {
            0
        } else {
            Self::count_live(ns.drop_last()) + if ns.last() is Some {
                1int
            } else {
                0int
            }
        }
    }

    /// The number of live nodes, as a specification value.
    pub closed spec fn spec_node_count(self) -> int {
        Self::count_live(self.nodes@)
    }

    /// The set of live slot handles.
    pub open spec fn live_set(self) -> Set<int> {
        Set::new(|i: int| self.live(i))
    }

    /// The node count is the cardinality of the set of live slots.
    pub proof fn lemma_node_count_is_live_card(g: ExprIntervalGraph)
        ensures
            g.live_set().finite(),
            g.spec_node_count() == g.live_set().len(),
    {
        lemma_count_live_is_card(g.nodes@);
        assert(g.live_set() =~= tbl_live_set(g.nodes@));
    }

    /// Two graphs with the same slots, root, liveness, expressions and
    /// edges; only the node intervals may differ.
    pub open spec fn same_structure(self, other: ExprIntervalGraph) -> bool {
        &&& other.n() == self.n()
        &&& other.spec_root() == self.spec_root()
        &&& forall|i: int| (#[trigger] other.live(i)) == self.live(i)
        &&& forall|i: int| self.live(i) ==> (#[trigger] other.expr_at(i)) == self.expr_at(i)
        &&& forall|i: int| 0 <= i < self.n() ==> (#[trigger] other.kids(i)) == self.kids(i)
    }

    /// Keeping the same structure is transitive.
    pub proof fn lemma_same_structure_trans(
        a: ExprIntervalGraph,
        b: ExprIntervalGraph,
        c: ExprIntervalGraph,
    )
        requires
            a.same_structure(b),
            b.same_structure(c),
        ensures
            a.same_structure(c),
    {
        assert forall|i: int| a.live(i) implies (#[trigger] c.expr_at(i)) == a.expr_at(i) by {
            assert(b.live(i) == a.live(i));
        }
    }

    /// Builds the DAEG of an expression. Construction cannot fail: the
    /// input is a tree, which is always acyclic. The built graph holds
    /// exactly one node per structurally distinct sub-expression of
    /// the input (shared subtrees deduplicate), every slot is live,
    /// each binary node's two child slots hold its two
    /// sub-expressions in order, literals carry their singleton
    /// interval, and everything else starts unbounded.
    pub fn try_new(expr: Expr) -> (r: Result<ExprIntervalGraph, DataFusionError>)
        ensures
            r is Ok,
            r matches Ok(g) ==> {
                &&& g.wf()
                &&& expr_eq(g.expr_at(g.spec_root()), expr)
                &&& forall|i: int| 0 <= i < g.n() ==> #[trigger] g.live(i)
                &&& forall|i: int|
                    #[trigger] g.live(i) ==> g.interval_at(i)
                        == ExprIntervalGraphNode::spec_make_interval(g.expr_at(i))
                &&& forall|i: int| #[trigger] g.live(i) ==> is_subexpr(expr, g.expr_at(i))
                &&& forall|i: int|
                    #[trigger] g.live(i) ==> g.kids(i).len() == (if g.expr_at(i) is Binary {
                        2int
                    } else {
                        0int
                    })
                &&& forall|sub: Expr|
                    #[trigger] is_subexpr(expr, sub) ==> exists|i: int|
                        g.live(i) && expr_eq(g.expr_at(i), sub)
                &&& g.spec_node_count() == g.n()
            },
    {
        let mut nodes: Vec<Option<ExprIntervalGraphNode>> = Vec::new();
        let mut children: Vec<Vec<usize>> = Vec::new();
        let root = add_expr(&mut nodes, &mut children, &expr);
        let g = ExprIntervalGraph { nodes, children, root };
        proof {
            lemma_count_live_full(g.nodes@);
            assert forall|i: int| 0 <= i < g.n() implies #[trigger] g.live(i) by {
                assert(tbl_live(g.nodes@, i));
            }
            assert forall|i: int| #[trigger] g.live(i) implies g.interval_at(i)
                == ExprIntervalGraphNode::spec_make_interval(g.expr_at(i)) && is_subexpr(
                expr,
                g.expr_at(i),
            ) && g.kids(i).len() == (if g.expr_at(i) is Binary {
                2int
            } else {
                0int
            }) by {
                assert(tbl_live(g.nodes@, i));
                assert(g.kids(i) == g.children@[i]@);
            }
            assert forall|sub: Expr| #[trigger] is_subexpr(expr, sub) implies exists|i: int|
                g.live(i) && expr_eq(g.expr_at(i), sub) by {
                let j = choose|j: int|
                    tbl_live(g.nodes@, j) && expr_eq(tbl_expr(g.nodes@, j), sub);
                assert(g.live(j) && expr_eq(g.expr_at(j), sub));
            }
        }
        Ok(g)
    }

    /// The guarantees of graph well-formedness, spelled out over the
    /// public accessors: the root is live; child handles point to
    /// live slots of strictly smaller index; dead slots have no
    /// edges; a node is a leaf or a binary expression whose two child
    /// slots hold exactly its two sub-expressions; structural
    /// identity is unique among live nodes; and every live node's
    /// interval is well-formed.
    pub proof fn lemma_wf_facts(g: ExprIntervalGraph)
        requires
            g.wf(),
        ensures
            0 <= g.spec_root() < g.n(),
            g.live(g.spec_root()),
            forall|i: int| #[trigger] g.live(i) ==> 0 <= i < g.n(),
            forall|i: int|
                #[trigger] g.live(i) ==> forall|k: int|
                    0 <= k < g.kids(i).len() ==> ((#[trigger] g.kids(i)[k]) as int) < i && g.live(
                        g.kids(i)[k] as int,
                    ),
            forall|i: int| 0 <= i < g.n() && !g.live(i) ==> (#[trigger] g.kids(i)).len() == 0,
            forall|i: int|
                #[trigger] g.live(i) ==> (g.kids(i).len() == 0 || (g.kids(i).len() == 2
                    && g.expr_at(i) is Binary && expr_eq(
                    g.expr_at(g.kids(i)[0] as int),
                    *g.expr_at(i)->Binary_0,
                ) && expr_eq(g.expr_at(g.kids(i)[1] as int), *g.expr_at(i)->Binary_2))),
            forall|i: int, j: int|
                g.live(i) && g.live(j) && i != j ==> !expr_eq(
                    #[trigger] g.expr_at(i),
                    #[trigger] g.expr_at(j),
                ),
            forall|i: int| #[trigger] g.live(i) ==> g.interval_at(i).wf(),
    {
        assert forall|i: int| #[trigger] g.live(i) implies forall|k: int|
            0 <= k < g.kids(i).len() ==> ((#[trigger] g.kids(i)[k]) as int) < i && g.live(
                g.kids(i)[k] as int,
            ) by {
            assert(tbl_live(g.nodes@, i));
            assert(g.kids(i) == g.children@[i]@);
        }
        assert forall|i: int| 0 <= i < g.n() && !g.live(i) implies (#[trigger] g.kids(i)).len()
            == 0 by {
            assert(!tbl_live(g.nodes@, i));
            assert(g.kids(i) == g.children@[i]@);
        }
        assert forall|i: int| #[trigger] g.live(i) implies (g.kids(i).len() == 0 || (g.kids(
            i,
        ).len() == 2 && g.expr_at(i) is Binary && expr_eq(
            g.expr_at(g.kids(i)[0] as int),
            *g.expr_at(i)->Binary_0,
        ) && expr_eq(g.expr_at(g.kids(i)[1] as int), *g.expr_at(i)->Binary_2))) by {
            assert(tbl_live(g.nodes@, i));
            assert(g.kids(i) == g.children@[i]@);
        }
    }

    /// The current number of live nodes.
    pub fn node_count(&self) -> (c: usize)
        ensures
            c as int == self.spec_node_count(),
    {
        let n = self.nodes.len();
        let mut c: usize = 0;
        let mut i: usize = 0;
        while i < n
            invariant
                n == self.nodes@.len(),
                i <= n,
                c <= i,
                c as int == ExprIntervalGraph::count_live(self.nodes@.take(i as int)),
            decreases n - i,
        {
            proof {
                assert(self.nodes@.take(i + 1 as int).drop_last() =~= self.nodes@.take(i as int));
                assert(self.nodes@.take(i + 1 as int).last() == self.nodes@[i as int]);
            }
            if self.nodes[i].is_some() {
                c = c + 1;
            }
            i = i + 1;
        }
        proof {
            assert(self.nodes@.take(n as int) =~= self.nodes@);
        }
        c
    }

    /// Overwrites the interval at each referenced node; used to seed
    /// leaf ranges before evaluation.
    pub fn assign_intervals(&mut self, assignments: &[(usize, Interval)])
        requires
            old(self).wf(),
            forall|k: int|
                0 <= k < assignments@.len() ==> old(self).live(
                    (#[trigger] assignments@[k]).0 as int,
                ) && assignments@[k].1.wf(),
        ensures
            final(self).wf(),
            old(self).same_structure(*final(self)),
            final(self).ivs() == spec_assign_ivs(old(self).ivs(), assignments@),
    {
        let n = assignments.len();
        let mut k: usize = 0;
        while k < n
            invariant
                n == assignments@.len(),
                k <= n,
                self.wf(),
                forall|j: int|
                    0 <= j < assignments@.len() ==> old(self).live(
                        (#[trigger] assignments@[j]).0 as int,
                    ) && assignments@[j].1.wf(),
                old(self).same_structure(*self),
                self.ivs() == spec_assign_ivs(old(self).ivs(), assignments@.take(k as int)),
            decreases n - k,
        {
            let ghost pre = *self;
            let (idx, iv) = assignments[k];
            proof {
                assert(old(self).live(idx as int));
                assert(self.live(idx as int));
            }
            let nd = match &self.nodes[idx] {
                Some(old_nd) => ExprIntervalGraphNode {
                    expr: old_nd.expr.clone(),
                    interval: iv,
                },
                None => {
                    proof {
                        assert(false);
                    }
                    ExprIntervalGraphNode { expr: Expr::Literal(iv.lower), interval: iv }
                },
            };
            self.nodes[idx] = Some(nd);
            proof {
                let ns0 = pre.nodes@;
                let ns1 = self.nodes@;
                assert(ns1 == ns0.update(idx as int, Some(nd)));
                assert forall|i: int| 0 <= i < ns1.len() implies #[trigger] tbl_live(ns1, i)
                    == tbl_live(ns0, i) by {}
                assert forall|i: int| #[trigger] tbl_live(ns1, i) implies tbl_expr(ns1, i)
                    == tbl_expr(ns0, i) by {}
                assert forall|i: int| #[trigger] tbl_live(ns1, i) && i != idx as int implies tbl_iv(
                    ns1,
                    i,
                ) == tbl_iv(ns0, i) by {}
                assert(tbl_iv(ns1, idx as int) == iv);
                assert(tbl_wf(ns1, self.children@));
                assert(pre.same_structure(*self)) by {
                    assert forall|i: int| 0 <= i < pre.n() implies (#[trigger] self.kids(i))
                        == pre.kids(i) by {
                        assert(self.children@[i] == pre.children@[i]);
                    }
                }
                Self::lemma_same_structure_trans(*old(self), pre, *self);
                assert(assignments@.take(k + 1 as int).drop_last() =~= assignments@.take(k as int));
                assert(assignments@.take(k + 1 as int).last() == assignments@[k as int]);
                assert(self.ivs() =~= spec_assign_ivs(old(self).ivs(), assignments@.take(k + 1)));
            }
            k = k + 1;
        }
        proof {
            assert(assignments@.take(n as int) =~= assignments@);
        }
    }

    /// Reads the interval at each referenced node back into the given
    /// pairs; used to surface tightened leaf ranges after propagation.
    pub fn update_intervals(&self, assignments: &mut Vec<(usize, Interval)>)
        requires
            self.wf(),
            forall|k: int|
                0 <= k < old(assignments)@.len() ==> self.live(
                    (#[trigger] old(assignments)@[k]).0 as int,
                ),
        ensures
            final(assignments)@.len() == old(assignments)@.len(),
            forall|k: int|
                0 <= k < old(assignments)@.len() ==> #[trigger] final(assignments)@[k] == (
                old(assignments)@[k].0,
                self.interval_at(old(assignments)@[k].0 as int),
            ),
    {
        let n = assignments.len();
        let mut k: usize = 0;
        while k < n
            invariant
                n == old(assignments)@.len(),
                assignments@.len() == n,
                k <= n,
                self.wf(),
                forall|j: int| k <= j < n ==> #[trigger] assignments@[j] == old(assignments)@[j],
                forall|j: int|
                    0 <= j < k ==> #[trigger] assignments@[j] == (
                    old(assignments)@[j].0,
                    self.interval_at(old(assignments)@[j].0 as int),
                ),
            decreases n - k,
        {
            let idx = assignments[k].0;
            proof {
                assert(assignments@[k as int] == old(assignments)@[k as int]);
                assert(self.live(idx as int));
            }
            let iv = match &self.nodes[idx] {
                Some(nd) => nd.interval,
                None => {
                    proof {
                        assert(false);
                    }
                    Interval::default()
                },
            };
            assignments[k] = (idx, iv);
            k = k + 1;
        }
    }
}

impl ExprIntervalGraph {
    /// Overwrites the interval of the single live node `idx`.
    fn set_interval(&mut self, idx: usize, iv: Interval)
        requires
            old(self).wf(),
            old(self).live(idx as int),
            iv.wf(),
        ensures
            final(self).wf(),
            old(self).same_structure(*final(self)),
            final(self).ivs() == old(self).ivs().update(idx as int, iv),
            final(self).interval_at(idx as int) == iv,
            forall|i: int|
                old(self).live(i) && i != idx as int ==> #[trigger] final(self).interval_at(i)
                    == old(self).interval_at(i),
    {
        let nd = match &self.nodes[idx] {
            Some(old_nd) => ExprIntervalGraphNode { expr: old_nd.expr.clone(), interval: iv },
            None => {
                proof {
                    assert(false);
                }
                ExprIntervalGraphNode { expr: Expr::Literal(iv.lower), interval: iv }
            },
        };
        self.nodes[idx] = Some(nd);
        proof {
            let ns0 = old(self).nodes@;
            let ns1 = self.nodes@;
            assert(ns1 == ns0.update(idx as int, Some(nd)));
            assert forall|i: int| 0 <= i < ns1.len() implies #[trigger] tbl_live(ns1, i)
                == tbl_live(ns0, i) by {}
            assert forall|i: int| #[trigger] tbl_live(ns1, i) implies tbl_expr(ns1, i) == tbl_expr(
                ns0,
                i,
            ) by {}
            assert forall|i: int| #[trigger] tbl_live(ns1, i) && i != idx as int implies tbl_iv(
                ns1,
                i,
            ) == tbl_iv(ns0, i) by {}
            assert(tbl_iv(ns1, idx as int) == iv);
            assert(tbl_wf(ns1, self.children@));
            assert(old(self).same_structure(*self)) by {
                assert forall|i: int| 0 <= i < old(self).n() implies (#[trigger] self.kids(i))
                    == old(self).kids(i) by {
                    assert(self.children@[i] == old(self).children@[i]);
                }
            }
            assert(self.ivs() =~= old(self).ivs().update(idx as int, iv));
        }
    }
}

/// What bottom-up evaluation yields at slot `i` of graph `g` when the
/// node intervals are `ivs`: a leaf keeps its current interval, a
/// binary node applies its operator to its children's evaluated
/// intervals, and `None` marks an evaluation error.
pub open spec fn spec_eval(g: ExprIntervalGraph, ivs: Seq<Interval>, i: int) -> Option<Interval>
    decreases i,
{
    if !g.live(i) || !(0 <= i < ivs.len()) {
        None
    } else if g.kids(i).len() == 0 {
        Some(ivs[i])
    } else if g.kids(i).len() == 2 && 0 <= (g.kids(i)[0] as int) < i && 0 <= (g.kids(i)[1] as int)
        < i && g.expr_at(i) is Binary {
        let l = spec_eval(g, ivs, g.kids(i)[0] as int);
        let r = spec_eval(g, ivs, g.kids(i)[1] as int);
        if l is Some && r is Some {
            spec_apply(g.expr_at(i)->Binary_1, l->0, r->0)
        } else {
            None
        }
    } else {
        None
    }
}

/// Whether bottom-up evaluation succeeds at every live node.
pub open spec fn eval_ok(g: ExprIntervalGraph, ivs: Seq<Interval>) -> bool {
    forall|i: int| #[trigger] g.live(i) ==> spec_eval(g, ivs, i) is Some
}

/// The structured error evaluation reports at a failing binary node
/// whose children evaluated: the offending datatypes.
pub open spec fn spec_eval_error_at(g: ExprIntervalGraph, ivs: Seq<Interval>, i: int) -> DataFusionError {
    let d0 = spec_eval(g, ivs, g.kids(i)[0] as int)->0.dt();
    let d1 = spec_eval(g, ivs, g.kids(i)[1] as int)->0.dt();
    if d0 != d1 {
        DataFusionError::TypeMismatch(d0, d1)
    } else {
        DataFusionError::UnsupportedType(d0)
    }
}

/// The node intervals after a successful bottom-up pass: every live
/// node carries its evaluated interval, dead slots are untouched.
pub open spec fn spec_eval_all(g: ExprIntervalGraph, ivs: Seq<Interval>) -> Seq<Interval> {
    Seq::new(
        ivs.len(),
        |t: int|
            if g.live(t) && spec_eval(g, ivs, t) is Some {
                spec_eval(g, ivs, t)->0
            } else {
                ivs[t]
            },
    )
}

/// Evaluation only depends on the structure of the graph, not on the
/// intervals stored in it.
proof fn lemma_spec_eval_congruence(
    g1: ExprIntervalGraph,
    g2: ExprIntervalGraph,
    ivs: Seq<Interval>,
    i: int,
)
    requires
        g1.same_structure(g2),
    ensures
        spec_eval(g1, ivs, i) == spec_eval(g2, ivs, i),
    decreases i,
{
    if g1.live(i) && 0 <= i < ivs.len() {
        assert(g2.live(i));
        assert(g2.kids(i) == g1.kids(i));
        if g1.kids(i).len() == 2 && 0 <= (g1.kids(i)[0] as int) < i && 0 <= (g1.kids(i)[1] as int)
            < i && g1.expr_at(i) is Binary {
            lemma_spec_eval_congruence(g1, g2, ivs, g1.kids(i)[0] as int);
            lemma_spec_eval_congruence(g1, g2, ivs, g1.kids(i)[1] as int);
        }
    }
}

/// A successfully evaluated interval is well-formed.
proof fn lemma_spec_eval_wf(g: ExprIntervalGraph, ivs: Seq<Interval>, i: int)
    requires
        g.wf(),
        ivs.len() == g.n(),
        forall|j: int| #[trigger] g.live(j) ==> ivs[j].wf(),
        spec_eval(g, ivs, i) is Some,
    ensures
        spec_eval(g, ivs, i)->0.wf(),
    decreases i,
{
    if g.live(i) && 0 <= i < ivs.len() && g.kids(i).len() == 2 {
        let k0 = g.kids(i)[0] as int;
        let k1 = g.kids(i)[1] as int;
        lemma_spec_eval_wf(g, ivs, k0);
        lemma_spec_eval_wf(g, ivs, k1);
        lemma_apply_wf(
            g.expr_at(i)->Binary_1,
            spec_eval(g, ivs, k0)->0,
            spec_eval(g, ivs, k1)->0,
        );
    }
}

impl ExprIntervalGraph {
    /// Computes bounds for every node bottom-up: each non-leaf node's
    /// interval becomes its expression's bounds over the children's
    /// intervals, and the root's resulting interval is returned. A
    /// leaf's interval must have been seeded beforehand. On an error
    /// the graph is left untouched.
    pub fn evaluate_bounds(&mut self) -> (r: Result<Interval, DataFusionError>)
        requires
            old(self).wf(),
        ensures
            final(self).wf(),
            old(self).same_structure(*final(self)),
            r is Ok <==> eval_ok(*old(self), old(self).ivs()),
            r is Ok ==> Some(r->Ok_0) == spec_eval(
                *old(self),
                old(self).ivs(),
                old(self).spec_root(),
            ),
            r is Ok ==> final(self).ivs() == spec_eval_all(*old(self), old(self).ivs()),
            r is Err ==> *final(self) == *old(self),
            r is Err ==> exists|i: int|
                (#[trigger] old(self).live(i)) && old(self).kids(i).len() == 2 && spec_eval(
                    *old(self),
                    old(self).ivs(),
                    i,
                ) is None && spec_eval(
                    *old(self),
                    old(self).ivs(),
                    old(self).kids(i)[0] as int,
                ) is Some && spec_eval(
                    *old(self),
                    old(self).ivs(),
                    old(self).kids(i)[1] as int,
                ) is Some && r->Err_0 == spec_eval_error_at(*old(self), old(self).ivs(), i),
    {
        let ghost g0 = *old(self);
        let ghost ivs0 = old(self).ivs();
        let n = self.nodes.len();
        let mut results: Vec<Option<Interval>> = Vec::new();
        let mut i: usize = 0;
        while i < n
            invariant
                *self == g0,
                n == g0.n(),
                i <= n,
                results@.len() == i as int,
                forall|j: int| 0 <= j < i ==> #[trigger] results@[j] == spec_eval(g0, ivs0, j),
                forall|j: int| 0 <= j < i && g0.live(j) ==> spec_eval(g0, ivs0, j) is Some,
            decreases n - i,
        {
            let live_node = self.nodes[i].is_some();
            if !live_node {
                results.push(None);
                proof {
                    assert(spec_eval(g0, ivs0, i as int) is None);
                }
            } else if self.children[i].len() == 0 {
                let iv = match &self.nodes[i] {
                    Some(nd) => nd.interval,
                    None => {
                        proof {
                            assert(false);
                        }
                        Interval::default()
                    },
                };
                proof {
                    assert(ivs0[i as int] == iv);
                    assert(spec_eval(g0, ivs0, i as int) == Some(iv));
                }
                results.push(Some(iv));
            } else {
                proof {
                    assert(tbl_live(g0.nodes@, i as int));
                    assert(g0.kids(i as int).len() == 2);
                }
                let k0 = self.children[i][0];
                let k1 = self.children[i][1];
                let l_opt = results[k0];
                let r_opt = results[k1];
                let lv = match l_opt {
                    Some(v) => v,
                    None => {
                        proof {
                            assert(g0.live(k0 as int));
                            assert(false);
                        }
                        Interval::default()
                    },
                };
                let rv = match r_opt {
                    Some(v) => v,
                    None => {
                        proof {
                            assert(g0.live(k1 as int));
                            assert(false);
                        }
                        Interval::default()
                    },
                };
                let cs = vec![lv, rv];
                proof {
                    assert(cs@ =~= seq![lv, rv]);
                    lemma_spec_eval_wf(g0, ivs0, k0 as int);
                    lemma_spec_eval_wf(g0, ivs0, k1 as int);
                }
                let outcome = match &self.nodes[i] {
                    Some(nd) => nd.expr.evaluate_bounds(&cs),
                    None => {
                        proof {
                            assert(false);
                        }
                        Err(DataFusionError::UnsupportedType(DataType::Int32))
                    },
                };
                match outcome {
                    Ok(iv) => {
                        proof {
                            assert(spec_eval(g0, ivs0, i as int) == Some(iv));
                        }
                        results.push(Some(iv));
                    },
                    Err(e) => {
                        proof {
                            assert(spec_eval(g0, ivs0, i as int) is None);
                            assert(g0.live(i as int));
                            assert(!eval_ok(g0, ivs0));
                            assert(e == spec_eval_error_at(g0, ivs0, i as int));
                            assert((g0.live(i as int)) && g0.kids(i as int).len() == 2
                                && spec_eval(g0, ivs0, i as int) is None && spec_eval(
                                g0,
                                ivs0,
                                g0.kids(i as int)[0] as int,
                            ) is Some && spec_eval(
                                g0,
                                ivs0,
                                g0.kids(i as int)[1] as int,
                            ) is Some && e == spec_eval_error_at(g0, ivs0, i as int));
                        }
                        return Err(e);
                    },
                }
            }
            i = i + 1;
        }
        proof {
            assert(eval_ok(g0, ivs0));
        }
        let mut j: usize = 0;
        while j < n
            invariant
                n == g0.n(),
                j <= n,
                self.wf(),
                g0.same_structure(*self),
                results@.len() == n,
                eval_ok(g0, ivs0),
                forall|t: int| 0 <= t < n ==> #[trigger] results@[t] == spec_eval(g0, ivs0, t),
                forall|t: int|
                    0 <= t < n ==> #[trigger] self.ivs()[t] == (if t < j && g0.live(t) {
                        spec_eval(g0, ivs0, t)->0
                    } else {
                        ivs0[t]
                    }),
            decreases n - j,
        {
            let live_slot = self.nodes[j].is_some();
            if live_slot {
                proof {
                    assert(self.live(j as int));
                    assert(g0.live(j as int));
                }
                let iv = match results[j] {
                    Some(v) => v,
                    None => {
                        proof {
                            assert(false);
                        }
                        Interval::default()
                    },
                };
                proof {
                    lemma_spec_eval_wf(g0, ivs0, j as int);
                }
                let ghost pre = *self;
                self.set_interval(j, iv);
                proof {
                    Self::lemma_same_structure_trans(g0, pre, *self);
                    assert forall|t: int| 0 <= t < n implies #[trigger] self.ivs()[t] == (if t < j
                        + 1 && g0.live(t) {
                        spec_eval(g0, ivs0, t)->0
                    } else {
                        ivs0[t]
                    }) by {
                        assert(self.ivs() == pre.ivs().update(j as int, iv));
                    }
                }
            } else {
                proof {
                    assert(!self.live(j as int));
                    assert(!g0.live(j as int));
                }
            }
            j = j + 1;
        }
        proof {
            assert(self.ivs() =~= spec_eval_all(g0, ivs0));
        }
        let root = self.root;
        let root_iv = match results[root] {
            Some(v) => v,
            None => {
                proof {
                    assert(g0.live(g0.spec_root()));
                    assert(false);
                }
                Interval::default()
            },
        };
        Ok(root_iv)
    }
}

/// One step of the top-down pass at slot `i`: a leaf or dead slot
/// changes nothing; a binary node propagates its interval into its
/// two children, writing the refined child intervals left to right.
/// `None` reports an infeasible child.
pub open spec fn spec_prop_step(g: ExprIntervalGraph, ivs: Seq<Interval>, i: int) -> Option<
    Seq<Interval>,
> {
    if !g.live(i) || g.kids(i).len() != 2 || !(0 <= i < ivs.len()) {
        Some(ivs)
    } else {
        let k0 = g.kids(i)[0] as int;
        let k1 = g.kids(i)[1] as int;
        if !(0 <= k0 < ivs.len() && 0 <= k1 < ivs.len()) {
            Some(ivs)
        } else {
            match crate::expr::spec_propagate_node(
                g.expr_at(i),
                ivs[i],
                seq![ivs[k0], ivs[k1]],
            ) {
                None => Some(ivs),
                Some(s) => if s.len() == 0 {
                    Some(ivs)
                } else if s[0] is Some && s[1] is Some {
                    Some(ivs.update(k0, s[0]->0).update(k1, s[1]->0))
                } else {
                    None
                },
            }
        }
    }
}

/// The top-down pass over slots `hi, hi - 1, ..., lo`; `None` reports
/// infeasibility somewhere along the way.
pub open spec fn spec_prop_seg(g: ExprIntervalGraph, ivs: Seq<Interval>, hi: int, lo: int) -> Option<
    Seq<Interval>,
>
    decreases hi - lo + 1,
{
    if hi < lo {
        Some(ivs)
    } else {
        match spec_prop_step(g, ivs, hi) {
            None => None,
            Some(s) => spec_prop_seg(g, s, hi - 1, lo),
        }
    }
}

/// No propagation step can hit a datatype error when every binary
/// node's interval datatypes line up with its operator: conjunctions
/// over booleans, everything else over one numeric datatype.
pub open spec fn prop_safe(g: ExprIntervalGraph, ivs: Seq<Interval>) -> bool {
    forall|i: int|
        (#[trigger] g.live(i)) && g.kids(i).len() == 2 ==> {
            let op = g.expr_at(i)->Binary_1;
            let d0 = ivs[g.kids(i)[0] as int].dt();
            let d1 = ivs[g.kids(i)[1] as int].dt();
            op.is_logic() || (op.is_comparison() && d0 == d1 && d0 != DataType::Boolean) || (
            op.is_arithmetic() && ivs[i].dt() == d0 && d0 == d1 && d0 != DataType::Boolean)
        }
}

/// Arithmetic propagation cannot fail when all three intervals share
/// one numeric datatype.
proof fn lemma_prop_arith_defined(op: Operator, p: Interval, l: Interval, r: Interval)
    requires
        op.is_arithmetic(),
        p.wf(),
        l.wf(),
        r.wf(),
        p.dt() == l.dt(),
        l.dt() == r.dt(),
        p.dt() != DataType::Boolean,
    ensures
        spec_propagate_arithmetic(op, p, l, r) is Some,
{
    let inv = spec_inverse(op);
    lemma_apply_wf(inv, p, r);
    let li = spec_apply(inv, p, r)->0;
    match spec_intersect(li, l) {
        None => {},
        Some(nl) => {
            lemma_intersect_props(li, l);
            if op is Minus {
                lemma_apply_wf(Operator::Minus, nl, p);
            } else {
                lemma_apply_wf(inv, p, nl);
            }
        },
    }
}

/// Comparison propagation cannot fail when the two child intervals
/// share one numeric datatype.
proof fn lemma_prop_cmp_defined(op: Operator, l: Interval, r: Interval)
    requires
        op.is_comparison(),
        l.wf(),
        r.wf(),
        l.dt() == r.dt(),
        l.dt() != DataType::Boolean,
    ensures
        spec_propagate_comparison(op, l, r) is Some,
{
    let t = spec_comparison_target(l.dt(), op);
    crate::interval::lemma_mk_num(
        l.dt(),
        if op is Gt {
            Some(0int)
        } else {
            None
        },
        if op is Gt {
            None
        } else {
            Some(0int)
        },
    );
    lemma_prop_arith_defined(Operator::Minus, t, l, r);
}

/// The top-down pass only depends on the structure of the graph.
proof fn lemma_spec_prop_seg_congruence(
    g1: ExprIntervalGraph,
    g2: ExprIntervalGraph,
    ivs: Seq<Interval>,
    hi: int,
    lo: int,
)
    requires
        g1.same_structure(g2),
    ensures
        spec_prop_seg(g1, ivs, hi, lo) == spec_prop_seg(g2, ivs, hi, lo),
    decreases hi - lo + 1,
{
    if hi >= lo {
        assert(spec_prop_step(g1, ivs, hi) == spec_prop_step(g2, ivs, hi)) by {
            if g1.live(hi) {
                assert(g2.live(hi));
                assert(g2.kids(hi) == g1.kids(hi));
            } else {
                assert(!g2.live(hi));
            }
        }
        match spec_prop_step(g1, ivs, hi) {
            None => {},
            Some(s) => {
                lemma_spec_prop_seg_congruence(g1, g2, s, hi - 1, lo);
            },
        }
    }
}

/// Splitting the top-down pass at a middle slot.
proof fn lemma_spec_prop_seg_split(
    g: ExprIntervalGraph,
    ivs: Seq<Interval>,
    hi: int,
    mid: int,
    lo: int,
)
    requires
        lo - 1 <= mid <= hi,
    ensures
        spec_prop_seg(g, ivs, hi, lo) == (match spec_prop_seg(g, ivs, hi, mid + 1) {
            None => None,
            Some(s) => spec_prop_seg(g, s, mid, lo),
        }),
    decreases hi - mid,
{
    if hi > mid {
        match spec_prop_step(g, ivs, hi) {
            None => {},
            Some(s) => {
                lemma_spec_prop_seg_split(g, s, hi - 1, mid, lo);
            },
        }
    }
}

impl ExprIntervalGraph {
    /// One slot of the top-down pass: propagates the node's interval
    /// into its two children, if it has any. `None` means the pass
    /// goes on; `Some(Infeasible)` stops it.
    fn propagate_step(&mut self, j: usize, Ghost(g0): Ghost<ExprIntervalGraph>) -> (r: Option<
        PropagationResult,
    >)
        requires
            old(self).wf(),
            g0.wf(),
            g0.same_structure(*old(self)),
            prop_safe(g0, g0.ivs()),
            j < old(self).n(),
            forall|t: int|
                g0.live(t) ==> (#[trigger] old(self).interval_at(t)).subset_of(
                    g0.interval_at(t),
                ),
        ensures
            final(self).wf(),
            g0.same_structure(*final(self)),
            forall|t: int|
                g0.live(t) ==> (#[trigger] final(self).interval_at(t)).subset_of(
                    g0.interval_at(t),
                ),
            r is None ==> spec_prop_step(g0, old(self).ivs(), j as int) == Some(
                final(self).ivs(),
            ),
            r is Some ==> r == Some(PropagationResult::Infeasible) && spec_prop_step(
                g0,
                old(self).ivs(),
                j as int,
            ) is None,
    {
        let ghost pre = *old(self);
        let ghost pivs = old(self).ivs();
        let live_node = self.nodes[j].is_some();
        if !(live_node && self.children[j].len() == 2) {
            proof {
                if live_node {
                    assert(self.live(j as int));
                    assert(g0.live(j as int));
                    assert(g0.kids(j as int) == self.kids(j as int));
                    assert(g0.kids(j as int).len() != 2);
                } else {
                    assert(!self.live(j as int));
                    assert(!g0.live(j as int));
                }
                assert(spec_prop_step(g0, pivs, j as int) == Some(pivs));
            }
            return None;
        }
        proof {
            assert(self.live(j as int));
            assert(g0.live(j as int));
            assert(g0.kids(j as int) == self.kids(j as int));
            assert(self.expr_at(j as int) == g0.expr_at(j as int));
        }
        let k0 = self.children[j][0];
        let k1 = self.children[j][1];
        proof {
            assert(k0 == g0.kids(j as int)[0]);
            assert(k1 == g0.kids(j as int)[1]);
        }
        let node_iv = match &self.nodes[j] {
            Some(nd) => nd.interval,
            None => {
                proof {
                    assert(false);
                }
                Interval::default()
            },
        };
        let c0 = match &self.nodes[k0] {
            Some(nd) => nd.interval,
            None => {
                proof {
                    assert(false);
                }
                Interval::default()
            },
        };
        let c1 = match &self.nodes[k1] {
            Some(nd) => nd.interval,
            None => {
                proof {
                    assert(false);
                }
                Interval::default()
            },
        };
        let cs = vec![c0, c1];
        proof {
            assert(cs@ =~= seq![c0, c1]);
            assert(node_iv == pivs[j as int]);
            assert(c0 == pivs[k0 as int]);
            assert(c1 == pivs[k1 as int]);
            assert(g0.interval_at(k0 as int) == g0.ivs()[k0 as int]);
            assert(g0.interval_at(k1 as int) == g0.ivs()[k1 as int]);
            assert(g0.interval_at(j as int) == g0.ivs()[j as int]);
            assert(c0.dt() == g0.ivs()[k0 as int].dt());
            assert(c1.dt() == g0.ivs()[k1 as int].dt());
            assert(node_iv.dt() == g0.ivs()[j as int].dt());
            let e = g0.expr_at(j as int);
            let op = e->Binary_1;
            if op.is_arithmetic() {
                lemma_prop_arith_defined(op, node_iv, c0, c1);
            } else if op.is_comparison() {
                lemma_prop_cmp_defined(op, c0, c1);
            }
            assert(crate::expr::spec_propagate_node(e, node_iv, cs@) is Some);
        }
        let outcome = match &self.nodes[j] {
            Some(nd) => nd.expr.propagate_constraints(&node_iv, &cs),
            None => {
                proof {
                    assert(false);
                }
                Err(DataFusionError::UnsupportedType(DataType::Int32))
            },
        };
        let props = match outcome {
            Ok(p) => p,
            Err(_) => {
                proof {
                    assert(false);
                }
                return Some(PropagationResult::Infeasible);
            },
        };
        if props.len() == 0 {
            proof {
                assert(spec_prop_step(g0, pivs, j as int) == Some(pivs));
            }
            return None;
        }
        let p0 = props[0];
        let p1 = props[1];
        match p0 {
            Some(v0) => {
                self.set_interval(k0, v0);
            },
            None => {
                proof {
                    assert(spec_prop_step(g0, pivs, j as int) is None);
                }
                return Some(PropagationResult::Infeasible);
            },
        }
        let ghost mid = *self;
        match p1 {
            Some(v1) => {
                self.set_interval(k1, v1);
                proof {
                    Self::lemma_same_structure_trans(g0, pre, mid);
                    Self::lemma_same_structure_trans(g0, mid, *self);
                    assert(self.ivs() == pivs.update(k0 as int, p0->0).update(k1 as int, p1->0));
                    assert(spec_prop_step(g0, pivs, j as int) == Some(self.ivs()));
                    assert forall|t: int| g0.live(t) implies (
                    #[trigger] self.interval_at(t)).subset_of(g0.interval_at(t)) by {
                        crate::interval::lemma_subset_trans(
                            self.interval_at(t),
                            pre.interval_at(t),
                            g0.interval_at(t),
                        );
                    }
                }
                None
            },
            None => {
                proof {
                    assert(spec_prop_step(g0, pivs, j as int) is None);
                    Self::lemma_same_structure_trans(g0, pre, *self);
                    assert forall|t: int| g0.live(t) implies (
                    #[trigger] self.interval_at(t)).subset_of(g0.interval_at(t)) by {
                        crate::interval::lemma_subset_trans(
                            self.interval_at(t),
                            pre.interval_at(t),
                            g0.interval_at(t),
                        );
                    }
                }
                Some(PropagationResult::Infeasible)
            },
        }
    }

    /// Tightens the children of every node by a top-down traversal,
    /// visiting each node before any of its descendants (slots are
    /// visited in descending order, and every edge points from a
    /// higher slot to a lower one). Reports `Infeasible` as soon as a
    /// propagated child interval comes back empty.
    fn propagate_constraints(&mut self) -> (r: Result<PropagationResult, DataFusionError>)
        requires
            old(self).wf(),
            prop_safe(*old(self), old(self).ivs()),
        ensures
            final(self).wf(),
            old(self).same_structure(*final(self)),
            r is Ok,
            r == Ok::<PropagationResult, DataFusionError>(PropagationResult::Success)
                <==> spec_prop_seg(*old(self), old(self).ivs(), old(self).n() - 1, 0) is Some,
            r is Ok && r->Ok_0 != PropagationResult::Success ==> r->Ok_0
                == PropagationResult::Infeasible,
            r == Ok::<PropagationResult, DataFusionError>(PropagationResult::Success) ==> Some(
                final(self).ivs(),
            ) == spec_prop_seg(*old(self), old(self).ivs(), old(self).n() - 1, 0),
            forall|t: int|
                old(self).live(t) ==> (#[trigger] final(self).interval_at(t)).subset_of(
                    old(self).interval_at(t),
                ),
    {
        let ghost g0 = *old(self);
        let ghost ivs0 = old(self).ivs();
        let n = self.nodes.len();
        let mut i: usize = n;
        while i > 0
            invariant
                i <= n,
                n == g0.n(),
                self.wf(),
                g0.same_structure(*self),
                spec_prop_seg(g0, ivs0, n - 1, i as int) == Some(self.ivs()),
                forall|t: int|
                    g0.live(t) ==> (#[trigger] self.interval_at(t)).subset_of(
                        g0.interval_at(t),
                    ),
            decreases i,
        {
            let j = i - 1;
            let ghost pivs = self.ivs();
            let step = self.propagate_step(j, Ghost(g0));
            match step {
                None => {
                    proof {
                        lemma_spec_prop_seg_split(g0, ivs0, n - 1, j as int, j as int);
                        let s2 = self.ivs();
                        assert(spec_prop_step(g0, pivs, j as int) == Some(s2));
                        assert(spec_prop_seg(g0, s2, j as int - 1, j as int) == Some(s2));
                        assert(spec_prop_seg(g0, pivs, j as int, j as int) == Some(s2));
                        assert(spec_prop_seg(g0, ivs0, n - 1, j as int) == Some(self.ivs()));
                    }
                },
                Some(res) => {
                    proof {
                        lemma_spec_prop_seg_split(g0, ivs0, n - 1, j as int, 0);
                        assert(spec_prop_step(g0, pivs, j as int) is None);
                        assert(spec_prop_seg(g0, pivs, j as int, 0) is None);
                        assert(spec_prop_seg(g0, ivs0, n - 1, 0) is None);
                    }
                    return Ok(res);
                },
            }
            i = j;
        }
        Ok(PropagationResult::Success)
    }
}

/// A successful bottom-up pass leaves every binary node's datatypes
/// lined up with its operator, so the top-down pass cannot fail.
proof fn lemma_eval_establishes_prop_safe(g: ExprIntervalGraph, ivs: Seq<Interval>)
    requires
        g.wf(),
        ivs.len() == g.n(),
        forall|j: int| #[trigger] g.live(j) ==> ivs[j].wf(),
        eval_ok(g, ivs),
    ensures
        prop_safe(g, spec_eval_all(g, ivs)),
{
    let evs = spec_eval_all(g, ivs);
    assert forall|i: int| (#[trigger] g.live(i)) && g.kids(i).len() == 2 implies {
        let op = g.expr_at(i)->Binary_1;
        let d0 = evs[g.kids(i)[0] as int].dt();
        let d1 = evs[g.kids(i)[1] as int].dt();
        op.is_logic() || (op.is_comparison() && d0 == d1 && d0 != DataType::Boolean) || (
        op.is_arithmetic() && evs[i].dt() == d0 && d0 == d1 && d0 != DataType::Boolean)
    } by {
        let k0 = g.kids(i)[0] as int;
        let k1 = g.kids(i)[1] as int;
        assert(g.live(k0) && g.live(k1));
        let l = spec_eval(g, ivs, k0);
        let r = spec_eval(g, ivs, k1);
        assert(spec_eval(g, ivs, i) is Some);
        lemma_spec_eval_wf(g, ivs, k0);
        lemma_spec_eval_wf(g, ivs, k1);
        let op = g.expr_at(i)->Binary_1;
        assert(spec_eval(g, ivs, i) == spec_apply(op, l->0, r->0));
        assert(evs[i] == spec_eval(g, ivs, i)->0);
        assert(evs[k0] == l->0);
        assert(evs[k1] == r->0);
        lemma_apply_wf(op, l->0, r->0);
        if op.is_logic() {
        } else if op.is_comparison() {
            assert(l->0.dt() == r->0.dt() && l->0.dt() != DataType::Boolean);
        } else {
            assert(op.is_arithmetic());
        }
    }
}

/// `spec_eval_all` only depends on the structure of the graph.
proof fn lemma_spec_eval_all_congruence(
    g1: ExprIntervalGraph,
    g2: ExprIntervalGraph,
    ivs: Seq<Interval>,
)
    requires
        g1.same_structure(g2),
    ensures
        spec_eval_all(g1, ivs) == spec_eval_all(g2, ivs),
{
    assert forall|t: int| 0 <= t < ivs.len() implies spec_eval_all(g1, ivs)[t] == spec_eval_all(
        g2,
        ivs,
    )[t] by {
        lemma_spec_eval_congruence(g1, g2, ivs, t);
    }
    assert(spec_eval_all(g1, ivs) =~= spec_eval_all(g2, ivs));
}

/// Assigning preserves the number of slots.
proof fn lemma_assign_ivs_len(ivs: Seq<Interval>, s: Seq<(usize, Interval)>)
    requires
        forall|k: int| 0 <= k < s.len() ==> (#[trigger] s[k]).0 < ivs.len(),
    ensures
        spec_assign_ivs(ivs, s).len() == ivs.len(),
    decreases s.len(),
{
    if s.len() > 0 {
        lemma_assign_ivs_len(ivs, s.drop_last());
    }
}

/// The last write to a slot wins: after assigning, the slot named by
/// the last entry for it holds that entry's interval.
proof fn lemma_assign_ivs_at(ivs: Seq<Interval>, s: Seq<(usize, Interval)>, k: int)
    requires
        forall|j: int| 0 <= j < s.len() ==> (#[trigger] s[j]).0 < ivs.len(),
        0 <= k < s.len(),
        forall|j: int| k < j < s.len() ==> (#[trigger] s[j]).0 != s[k].0,
    ensures
        spec_assign_ivs(ivs, s)[s[k].0 as int] == s[k].1,
    decreases s.len(),
{
    lemma_assign_ivs_len(ivs, s.drop_last());
    if k == s.len() - 1 {
    } else {
        lemma_assign_ivs_at(ivs, s.drop_last(), k);
    }
}

impl ExprIntervalGraph {
    /// The node intervals after the given leaf bounds are assigned.
    pub open spec fn assigned_ivs(self, bounds: Seq<(usize, Interval)>) -> Seq<Interval> {
        spec_assign_ivs(self.ivs(), bounds)
    }

    /// What the root evaluates to once the given leaf bounds are
    /// assigned.
    pub open spec fn spec_root_eval(self, bounds: Seq<(usize, Interval)>) -> Option<Interval> {
        spec_eval(self, self.assigned_ivs(bounds), self.spec_root())
    }

    /// The node intervals after assigning the given leaf bounds,
    /// evaluating bottom-up, and propagating top-down; `None` reports
    /// infeasibility during propagation.
    pub open spec fn spec_propagated(self, bounds: Seq<(usize, Interval)>) -> Option<
        Seq<Interval>,
    > {
        spec_prop_seg(self, spec_eval_all(self, self.assigned_ivs(bounds)), self.n() - 1, 0)
    }

    /// Whether slot `i` is a leaf (it has no outgoing edges).
    pub open spec fn is_leaf(self, i: int) -> bool {
        self.kids(i).len() == 0
    }

    /// Updates intervals for all expressions in the DAEG by
    /// successive bottom-up and top-down traversals, starting from the
    /// given leaf ranges. The root must evaluate to the boolean
    /// interval `[false, false]` (infeasible) or `[false, true]`
    /// (satisfiable but not certain); anything else cannot be
    /// propagated. On `Success` the tightened leaf ranges are written
    /// back into `leaf_bounds`; each leaf only ever shrinks.
    #[verifier::rlimit(80)]
    pub fn update_ranges(&mut self, leaf_bounds: &mut Vec<(usize, Interval)>) -> (r: Result<
        PropagationResult,
        DataFusionError,
    >)
        requires
            old(self).wf(),
            forall|k: int|
                0 <= k < old(leaf_bounds)@.len() ==> old(self).live(
                    (#[trigger] old(leaf_bounds)@[k]).0 as int,
                ) && old(leaf_bounds)@[k].1.wf(),
        ensures
            final(self).wf(),
            old(self).same_structure(*final(self)),
            r is Err <==> !eval_ok(*old(self), old(self).assigned_ivs(old(leaf_bounds)@)),
            r is Err ==> final(leaf_bounds)@ == old(leaf_bounds)@,
            r == Ok::<PropagationResult, DataFusionError>(PropagationResult::Infeasible) <==> (
            eval_ok(*old(self), old(self).assigned_ivs(old(leaf_bounds)@)) && (old(
                self,
            ).spec_root_eval(old(leaf_bounds)@) == Some(crate::interval::mk_bool(false, false)) || (
            old(self).spec_root_eval(old(leaf_bounds)@) == Some(
                crate::interval::mk_bool(false, true),
            ) && old(self).spec_propagated(old(leaf_bounds)@) is None))),
            r == Ok::<PropagationResult, DataFusionError>(PropagationResult::Success) <==> (
            eval_ok(*old(self), old(self).assigned_ivs(old(leaf_bounds)@)) && old(
                self,
            ).spec_root_eval(old(leaf_bounds)@) == Some(crate::interval::mk_bool(false, true))
                && old(self).spec_propagated(old(leaf_bounds)@) is Some),
            final(leaf_bounds)@.len() == old(leaf_bounds)@.len(),
            forall|k: int|
                0 <= k < old(leaf_bounds)@.len() ==> (#[trigger] final(leaf_bounds)@[k]).0 == old(
                    leaf_bounds,
                )@[k].0,
            r == Ok::<PropagationResult, DataFusionError>(PropagationResult::Success) ==> forall|
                k: int,
            |
                0 <= k < old(leaf_bounds)@.len() ==> (#[trigger] final(leaf_bounds)@[k]).1 == old(
                    self,
                ).spec_propagated(old(leaf_bounds)@)->0[old(leaf_bounds)@[k].0 as int],
            r == Ok::<PropagationResult, DataFusionError>(PropagationResult::CannotPropagate) ||
            r == Ok::<PropagationResult, DataFusionError>(PropagationResult::Infeasible) && old(
                self,
            ).spec_root_eval(old(leaf_bounds)@) == Some(crate::interval::mk_bool(false, false))
                ==> final(leaf_bounds)@ == old(leaf_bounds)@,
            r is Ok ==> forall|k: int|
                0 <= k < old(leaf_bounds)@.len() && old(self).is_leaf(
                    (#[trigger] old(leaf_bounds)@[k]).0 as int,
                ) && (forall|j: int|
                    k < j < old(leaf_bounds)@.len() ==> (#[trigger] old(leaf_bounds)@[j]).0 != old(
                        leaf_bounds,
                    )@[k].0) ==> final(leaf_bounds)@[k].1.subset_of(old(leaf_bounds)@[k].1),
            r is Err ==> final(self).ivs() == old(self).assigned_ivs(old(leaf_bounds)@),
            r is Err ==> exists|i: int|
                (#[trigger] old(self).live(i)) && old(self).kids(i).len() == 2 && spec_eval(
                    *old(self),
                    old(self).assigned_ivs(old(leaf_bounds)@),
                    i,
                ) is None && r->Err_0 == spec_eval_error_at(
                    *old(self),
                    old(self).assigned_ivs(old(leaf_bounds)@),
                    i,
                ),
            r == Ok::<PropagationResult, DataFusionError>(PropagationResult::Success) ==> Some(
                final(self).ivs(),
            ) == old(self).spec_propagated(old(leaf_bounds)@),
            r == Ok::<PropagationResult, DataFusionError>(PropagationResult::CannotPropagate)
                ==> final(self).ivs() == spec_eval_all(
                *old(self),
                old(self).assigned_ivs(old(leaf_bounds)@),
            ),
            r == Ok::<PropagationResult, DataFusionError>(PropagationResult::Infeasible) && old(
                self,
            ).spec_root_eval(old(leaf_bounds)@) == Some(crate::interval::mk_bool(false, false))
                ==> final(self).ivs() == spec_eval_all(
                *old(self),
                old(self).assigned_ivs(old(leaf_bounds)@),
            ),
    {
        let ghost g0 = *old(self);
        let ghost bounds0 = old(leaf_bounds)@;
        let ghost ivs1 = spec_assign_ivs(g0.ivs(), bounds0);
        self.assign_intervals(leaf_bounds.as_slice());
        let ghost ga = *self;
        proof {
            assert(ga.ivs() == ivs1);
            assert(ivs1.len() == g0.n()) by {
                lemma_assign_ivs_len(g0.ivs(), bounds0);
            }
        }
        let root_iv = match self.evaluate_bounds() {
            Ok(iv) => iv,
            Err(e) => {
                proof {
                    assert(!eval_ok(ga, ivs1));
                    assert forall|i: int| #[trigger] g0.live(i) implies spec_eval(g0, ivs1, i)
                        == spec_eval(ga, ivs1, i) by {
                        lemma_spec_eval_congruence(g0, ga, ivs1, i);
                    }
                    assert(!eval_ok(g0, ivs1)) by {
                        let w = choose|i: int| ga.live(i) && spec_eval(ga, ivs1, i) is None;
                        assert(g0.live(w));
                        lemma_spec_eval_congruence(g0, ga, ivs1, w);
                    }
                    let w = choose|i: int|
                        (#[trigger] ga.live(i)) && ga.kids(i).len() == 2 && spec_eval(
                            ga,
                            ivs1,
                            i,
                        ) is None && spec_eval(ga, ivs1, ga.kids(i)[0] as int) is Some
                            && spec_eval(ga, ivs1, ga.kids(i)[1] as int) is Some && e
                            == spec_eval_error_at(ga, ivs1, i);
                    lemma_spec_eval_congruence(g0, ga, ivs1, w);
                    lemma_spec_eval_congruence(g0, ga, ivs1, ga.kids(w)[0] as int);
                    lemma_spec_eval_congruence(g0, ga, ivs1, ga.kids(w)[1] as int);
                    assert(g0.kids(w) == ga.kids(w));
                    assert(g0.live(w));
                    assert(spec_eval_error_at(g0, ivs1, w) == spec_eval_error_at(ga, ivs1, w));
                    assert((g0.live(w)) && g0.kids(w).len() == 2 && spec_eval(
                        g0,
                        ivs1,
                        w,
                    ) is None && e == spec_eval_error_at(g0, ivs1, w));
                }
                return Err(e);
            },
        };
        let ghost gb = *self;
        proof {
            assert(eval_ok(ga, ivs1));
            assert forall|i: int| #[trigger] g0.live(i) implies spec_eval(g0, ivs1, i) == spec_eval(
                ga,
                ivs1,
                i,
            ) by {
                lemma_spec_eval_congruence(g0, ga, ivs1, i);
            }
            assert(eval_ok(g0, ivs1));
            lemma_spec_eval_congruence(g0, ga, ivs1, g0.spec_root());
            assert(Some(root_iv) == g0.spec_root_eval(bounds0));
            lemma_spec_eval_all_congruence(g0, ga, ivs1);
            assert(gb.ivs() == spec_eval_all(g0, ivs1));
            Self::lemma_same_structure_trans(g0, ga, gb);
        }
        match (&root_iv.lower, &root_iv.upper) {
            (ScalarValue::Boolean(Some(false)), ScalarValue::Boolean(Some(false))) => {
                proof {
                    assert(root_iv == crate::interval::mk_bool(false, false));
                }
                Ok(PropagationResult::Infeasible)
            },
            (ScalarValue::Boolean(Some(false)), ScalarValue::Boolean(Some(true))) => {
                proof {
                    assert(root_iv == crate::interval::mk_bool(false, true));
                    assert forall|j: int| #[trigger] ga.live(j) implies ivs1[j].wf() by {
                        assert(ga.interval_at(j) == ivs1[j]);
                    }
                    lemma_eval_establishes_prop_safe(ga, ivs1);
                    assert forall|i: int|
                        (#[trigger] gb.live(i)) && gb.kids(i).len() == 2 implies {
                        let op = gb.expr_at(i)->Binary_1;
                        let d0 = gb.ivs()[gb.kids(i)[0] as int].dt();
                        let d1 = gb.ivs()[gb.kids(i)[1] as int].dt();
                        op.is_logic() || (op.is_comparison() && d0 == d1 && d0
                            != DataType::Boolean) || (op.is_arithmetic() && gb.ivs()[i].dt() == d0
                            && d0 == d1 && d0 != DataType::Boolean)
                    } by {
                        assert(ga.live(i));
                        assert(ga.kids(i) == gb.kids(i));
                        assert(gb.expr_at(i) == ga.expr_at(i));
                        assert(spec_eval_all(ga, ivs1) == gb.ivs());
                    }
                    assert(prop_safe(gb, gb.ivs()));
                }
                let result = self.propagate_constraints()?;
                let ghost gc = *self;
                proof {
                    Self::lemma_same_structure_trans(g0, gb, gc);
                    assert forall|k: int| 0 <= k < bounds0.len() implies gc.live(
                        (#[trigger] bounds0[k]).0 as int,
                    ) by {
                        assert(g0.live(bounds0[k].0 as int));
                    }
                }
                self.update_intervals(leaf_bounds);
                proof {
                    lemma_spec_prop_seg_congruence(g0, gb, gb.ivs(), g0.n() - 1, 0);
                    assert(spec_prop_seg(gb, gb.ivs(), gb.n() - 1, 0) == g0.spec_propagated(
                        bounds0,
                    ));
                    if result == PropagationResult::Success {
                        assert(Some(gc.ivs()) == g0.spec_propagated(bounds0));
                    }
                    assert forall|k: int|
                        0 <= k < bounds0.len() && g0.is_leaf((#[trigger] bounds0[k]).0 as int) && (
                        forall|j: int|
                            k < j < bounds0.len() ==> (#[trigger] bounds0[j]).0 != bounds0[k].0)
                        implies final(leaf_bounds)@[k].1.subset_of(bounds0[k].1) by {
                        let idx = bounds0[k].0 as int;
                        assert(g0.live(idx));
                        lemma_assign_ivs_at(g0.ivs(), bounds0, k);
                        assert(ivs1[idx] == bounds0[k].1);
                        assert(ga.live(idx));
                        assert(ga.kids(idx).len() == 0);
                        assert(spec_eval(ga, ivs1, idx) == Some(ivs1[idx]));
                        assert(gb.ivs()[idx] == ivs1[idx]);
                        assert(gb.interval_at(idx) == ivs1[idx]);
                        assert(gc.interval_at(idx).subset_of(gb.interval_at(idx)));
                        assert(final(leaf_bounds)@[k].1 == gc.interval_at(idx));
                    }
                }
                Ok(result)
            },
            _ => {
                proof {
                    assert(root_iv != crate::interval::mk_bool(false, false));
                    assert(root_iv != crate::interval::mk_bool(false, true));
                }
                Ok(PropagationResult::CannotPropagate)
            },
        }
    }
}

/// The slots reachable from slot `i` along child edges, over the
/// given adjacency view. The recursion is guarded so that it is well
/// founded on any view; in a well-formed graph every edge points to a
/// strictly smaller slot, so the guards never cut anything off.
pub open spec fn reach_from(ch: Seq<Seq<usize>>, i: int) -> Set<int>
    decreases i, 1int, 0int,
{
    if 0 <= i < ch.len() {
        set![i].union(reach_kids(ch, i, 0))
    } else {
        Set::empty()
    }
}

/// The slots reachable through the children of slot `i`, starting at
/// child position `k`.
pub open spec fn reach_kids(ch: Seq<Seq<usize>>, i: int, k: int) -> Set<int>
    decreases i, 0int, ch[i].len() - k,
{
    if 0 <= i < ch.len() && 0 <= k < ch[i].len() && (ch[i][k] as int) < i {
        reach_from(ch, ch[i][k] as int).union(reach_kids(ch, i, k + 1))
    } else if 0 <= i < ch.len() && 0 <= k < ch[i].len() {
        reach_kids(ch, i, k + 1)
    } else {
        Set::empty()
    }
}

/// A slot reaches itself.
proof fn lemma_reach_self(ch: Seq<Seq<usize>>, i: int)
    requires
        0 <= i < ch.len(),
    ensures
        reach_from(ch, i).contains(i),
{
}

/// Anything reachable through child `k` of slot `i` is reachable from
/// a smaller child position as well.
proof fn lemma_reach_kids_mem(ch: Seq<Seq<usize>>, i: int, j: int, k: int, x: int)
    requires
        0 <= i < ch.len(),
        0 <= j <= k < ch[i].len(),
        (ch[i][k] as int) < i,
        reach_from(ch, ch[i][k] as int).contains(x),
    ensures
        reach_kids(ch, i, j).contains(x),
    decreases k - j,
{
    if j < k {
        lemma_reach_kids_mem(ch, i, j + 1, k, x);
    }
}

/// Anything reachable from a child is reachable from the parent.
proof fn lemma_reach_kid_mem(ch: Seq<Seq<usize>>, i: int, k: int, x: int)
    requires
        0 <= i < ch.len(),
        0 <= k < ch[i].len(),
        (ch[i][k] as int) < i,
        reach_from(ch, ch[i][k] as int).contains(x),
    ensures
        reach_from(ch, i).contains(x),
{
    lemma_reach_kids_mem(ch, i, 0, k, x);
}

/// Everything reachable lies inside the adjacency view.
proof fn lemma_reach_range(ch: Seq<Seq<usize>>, i: int, x: int)
    requires
        reach_from(ch, i).contains(x),
    ensures
        0 <= x < ch.len(),
    decreases i, 1int, 0int,
{
    if 0 <= i < ch.len() {
        if x != i {
            lemma_reach_kids_range(ch, i, 0, x);
        }
    }
}

/// The child-list form of `lemma_reach_range`.
proof fn lemma_reach_kids_range(ch: Seq<Seq<usize>>, i: int, k: int, x: int)
    requires
        reach_kids(ch, i, k).contains(x),
    ensures
        0 <= x < ch.len(),
    decreases i, 0int, ch[i].len() - k,
{
    if 0 <= i < ch.len() && 0 <= k < ch[i].len() && (ch[i][k] as int) < i {
        if reach_from(ch, ch[i][k] as int).contains(x) {
            lemma_reach_range(ch, ch[i][k] as int, x);
        } else {
            lemma_reach_kids_range(ch, i, k + 1, x);
        }
    } else if 0 <= i < ch.len() && 0 <= k < ch[i].len() {
        lemma_reach_kids_range(ch, i, k + 1, x);
    }
}

/// Reachability is transitive.
proof fn lemma_reach_trans(ch: Seq<Seq<usize>>, r: int, i: int, x: int)
    requires
        reach_from(ch, r).contains(i),
        reach_from(ch, i).contains(x),
    ensures
        reach_from(ch, r).contains(x),
    decreases r, 1int, 0int,
{
    if 0 <= r < ch.len() {
        if i == r {
        } else {
            assert(reach_kids(ch, r, 0).contains(i));
            lemma_reach_kids_trans(ch, r, 0, i, x);
        }
    }
}

/// Transitivity through a child list.
proof fn lemma_reach_kids_trans(ch: Seq<Seq<usize>>, r: int, k: int, i: int, x: int)
    requires
        reach_kids(ch, r, k).contains(i),
        reach_from(ch, i).contains(x),
    ensures
        reach_kids(ch, r, k).contains(x),
    decreases r, 0int, ch[r].len() - k,
{
    if 0 <= r < ch.len() && 0 <= k < ch[r].len() && (ch[r][k] as int) < r {
        if reach_from(ch, ch[r][k] as int).contains(i) {
            lemma_reach_trans(ch, ch[r][k] as int, i, x);
        } else {
            lemma_reach_kids_trans(ch, r, k + 1, i, x);
        }
    } else if 0 <= r < ch.len() && 0 <= k < ch[r].len() {
        lemma_reach_kids_trans(ch, r, k + 1, i, x);
    }
}

/// Whether a marking is closed under the (guarded) child edges.
pub open spec fn vis_closed(ch: Seq<Seq<usize>>, vis: Seq<bool>) -> bool {
    forall|u: int, k: int|
        0 <= u < ch.len() && vis[u] && 0 <= k < (#[trigger] ch[u]).len() && (
        #[trigger] ch[u][k] as int) < u ==> vis[ch[u][k] as int]
}

/// Any marking that contains `i` and is closed under child edges
/// covers everything reachable from `i`.
proof fn lemma_reach_in_closed(ch: Seq<Seq<usize>>, vis: Seq<bool>, i: int, x: int)
    requires
        ch.len() == vis.len(),
        vis_closed(ch, vis),
        0 <= i < ch.len(),
        vis[i],
        reach_from(ch, i).contains(x),
    ensures
        0 <= x < vis.len() && vis[x],
    decreases i, 1int, 0int,
{
    if x == i {
    } else {
        assert(reach_kids(ch, i, 0).contains(x));
        lemma_reach_kids_in_closed(ch, vis, i, 0, x);
    }
}

/// The child-list form of `lemma_reach_in_closed`.
proof fn lemma_reach_kids_in_closed(ch: Seq<Seq<usize>>, vis: Seq<bool>, i: int, k: int, x: int)
    requires
        ch.len() == vis.len(),
        vis_closed(ch, vis),
        0 <= i < ch.len(),
        vis[i],
        reach_kids(ch, i, k).contains(x),
    ensures
        0 <= x < vis.len() && vis[x],
    decreases i, 0int, ch[i].len() - k,
{
    if 0 <= k < ch[i].len() && (ch[i][k] as int) < i {
        if reach_from(ch, ch[i][k] as int).contains(x) {
            assert(vis[ch[i][k] as int]);
            lemma_reach_in_closed(ch, vis, ch[i][k] as int, x);
        } else {
            lemma_reach_kids_in_closed(ch, vis, i, k + 1, x);
        }
    } else if 0 <= k < ch[i].len() {
        lemma_reach_kids_in_closed(ch, vis, i, k + 1, x);
    }
}

impl ExprIntervalGraph {
    /// The adjacency view of the graph: one child list per slot.
    pub open spec fn kids_view(self) -> Seq<Seq<usize>> {
        Seq::new(self.n() as nat, |i: int| self.kids(i))
    }

    /// Whether the live node in slot `i` matches one of the keys.
    pub open spec fn matched_by(self, keys: Seq<Expr>, i: int) -> bool {
        exists|k: int| 0 <= k < keys.len() && expr_eq(self.expr_at(i), #[trigger] keys[k])
    }

    /// Whether some live node matches the key.
    pub open spec fn has_match(self, key: Expr) -> bool {
        exists|i: int| #[trigger] self.live(i) && expr_eq(self.expr_at(i), key)
    }

    /// The adjacency view after the matched nodes' outgoing edges are
    /// removed.
    pub open spec fn pruned_view(self, keys: Seq<Expr>) -> Seq<Seq<usize>> {
        Seq::new(
            self.n() as nat,
            |i: int|
                if self.live(i) && self.matched_by(keys, i) {
                    Seq::empty()
                } else {
                    self.kids(i)
                },
        )
    }

    /// Marks the slots reachable from the root, via a single
    /// descending sweep: every edge points from a higher slot to a
    /// lower one, so one pass from the top marks exactly the
    /// reachable slots.
    fn connected_nodes(&self) -> (vis: Vec<bool>)
        requires
            self.wf(),
        ensures
            vis@.len() == self.n(),
            forall|j: int|
                0 <= j < self.n() ==> ((#[trigger] vis@[j]) <==> reach_from(
                    self.kids_view(),
                    self.spec_root(),
                ).contains(j)),
    {
        let ghost ch = self.kids_view();
        let ghost root = self.spec_root();
        let n = self.nodes.len();
        let mut vis: Vec<bool> = vec![false; n];
        let r = self.root;
        vis[r] = true;
        proof {
            lemma_reach_self(ch, root);
        }
        let mut i: usize = n;
        while i > 0
            invariant
                vis@.len() == n,
                n == self.n(),
                i <= n,
                vis@[root],
                forall|j: int| 0 <= j < n && #[trigger] vis@[j] ==> reach_from(ch, root).contains(j),
                forall|u: int, k: int|
                    i <= u < n && vis@[u] && 0 <= k < (#[trigger] self.kids(u)).len() ==> vis@[(
                    #[trigger] self.kids(u)[k]) as int],
            decreases i,
        {
            let u = i - 1;
            if vis[u] {
                proof {
                    if self.live(u as int) {
                    } else {
                        assert(self.kids(u as int).len() == 0);
                    }
                }
                let m = self.children[u].len();
                let mut k: usize = 0;
                while k < m
                    invariant
                        vis@.len() == n,
                        n == self.n(),
                        u < n,
                        vis@[root],
                        vis@[u as int],
                        m == self.kids(u as int).len(),
                        k <= m,
                        self.live(u as int) || m == 0,
                        forall|j: int|
                            0 <= j < n && #[trigger] vis@[j] ==> reach_from(ch, root).contains(j),
                        forall|u2: int, k2: int|
                            u < u2 < n && vis@[u2] && 0 <= k2 < (#[trigger] self.kids(u2)).len()
                                ==> vis@[(#[trigger] self.kids(u2)[k2]) as int],
                        forall|k2: int|
                            0 <= k2 < k ==> vis@[(#[trigger] self.kids(u as int)[k2]) as int],
                    decreases m - k,
                {
                    let c = self.children[u][k];
                    proof {
                        assert(self.live(u as int));
                        assert((self.kids(u as int)[k as int] as int) < u as int);
                        assert(ch[u as int] == self.kids(u as int));
                        lemma_reach_self(ch, c as int);
                        lemma_reach_kid_mem(ch, u as int, k as int, c as int);
                        lemma_reach_trans(ch, root, u as int, c as int);
                    }
                    vis[c] = true;
                    k = k + 1;
                }
            }
            i = i - 1;
        }
        proof {
            assert(vis_closed(ch, vis@)) by {
                assert forall|u: int, k: int|
                    0 <= u < ch.len() && vis@[u] && 0 <= k < (#[trigger] ch[u]).len() && (
                    #[trigger] ch[u][k] as int) < u implies vis@[ch[u][k] as int] by {
                    assert(ch[u] == self.kids(u));
                }
            }
            assert forall|j: int|
                0 <= j < self.n() && reach_from(ch, root).contains(j) implies vis@[j] by {
                lemma_reach_in_closed(ch, vis@, root, j);
            }
            assert forall|j: int|
                reach_from(ch, root).contains(j) implies 0 <= j < self.n() by {
                lemma_reach_in_closed(ch, vis@, root, j);
            }
        }
        vis
    }

    /// Associates stable node handles with the given expression keys:
    /// for each key, finds the unique node holding a structurally
    /// equal expression (the handle stays `usize::MAX` when there is
    /// none), then removes the matched nodes' outgoing edges, so their
    /// sub-expressions are abstracted away, and finally drops every
    /// node that is no longer reachable from the root.
    #[verifier::rlimit(80)]
    pub fn gather_node_indices(&mut self, exprs: &[Expr]) -> (result: Vec<(Expr, usize)>)
        requires
            old(self).wf(),
        ensures
            final(self).wf(),
            result@.len() == exprs@.len(),
            forall|k: int| 0 <= k < exprs@.len() ==> (#[trigger] result@[k]).0 == exprs@[k],
            forall|k: int|
                0 <= k < exprs@.len() ==> ((#[trigger] result@[k]).1 != usize::MAX <==> old(
                    self,
                ).has_match(exprs@[k])),
            forall|k: int|
                0 <= k < exprs@.len() && (#[trigger] result@[k]).1 != usize::MAX ==> old(self).live(
                    result@[k].1 as int,
                ) && expr_eq(old(self).expr_at(result@[k].1 as int), exprs@[k]),
            final(self).n() == old(self).n(),
            final(self).spec_root() == old(self).spec_root(),
            forall|i: int|
                (#[trigger] final(self).live(i)) <==> old(self).live(i) && reach_from(
                    old(self).pruned_view(exprs@),
                    old(self).spec_root(),
                ).contains(i),
            forall|i: int|
                #[trigger] final(self).live(i) ==> final(self).expr_at(i) == old(self).expr_at(i)
                    && final(self).interval_at(i) == old(self).interval_at(i),
            forall|i: int|
                #[trigger] final(self).live(i) ==> final(self).kids(i) == (if old(self).matched_by(
                    exprs@,
                    i,
                ) {
                    Seq::<usize>::empty()
                } else {
                    old(self).kids(i)
                }),
    {
        let ghost g0 = *old(self);
        let ghost keys = exprs@;
        let n = self.nodes.len();
        let mut result: Vec<(Expr, usize)> = Vec::new();
        let mut k: usize = 0;
        while k < exprs.len()
            invariant
                *self == g0,
                k <= exprs@.len(),
                result@.len() == k,
                forall|t: int| 0 <= t < k ==> (#[trigger] result@[t]).0 == keys[t],
                forall|t: int|
                    0 <= t < k ==> ((#[trigger] result@[t]).1 != usize::MAX <==> g0.has_match(
                        keys[t],
                    )),
                forall|t: int|
                    0 <= t < k && (#[trigger] result@[t]).1 != usize::MAX ==> g0.live(
                        result@[t].1 as int,
                    ) && expr_eq(g0.expr_at(result@[t].1 as int), keys[t]),
            decreases exprs@.len() - k,
        {
            match find_node(&self.nodes, &exprs[k]) {
                Some(j) => {
                    proof {
                        assert(g0.live(j as int));
                        assert(j < n);
                    }
                    result.push((exprs[k].clone(), j));
                },
                None => {
                    result.push((exprs[k].clone(), usize::MAX));
                },
            }
            k = k + 1;
        }
        let mut k2: usize = 0;
        while k2 < result.len()
            invariant
                k2 <= result@.len(),
                result@.len() == keys.len(),
                n == self.n(),
                self.nodes@ == g0.nodes@,
                self.spec_root() == g0.spec_root(),
                self.children@.len() == n,
                self.wf(),
                forall|t: int| 0 <= t < keys.len() ==> (#[trigger] result@[t]).0 == keys[t],
                forall|t: int|
                    0 <= t < keys.len() ==> ((#[trigger] result@[t]).1 != usize::MAX
                        <==> g0.has_match(keys[t])),
                forall|t: int|
                    0 <= t < keys.len() && (#[trigger] result@[t]).1 != usize::MAX ==> g0.live(
                        result@[t].1 as int,
                    ) && expr_eq(g0.expr_at(result@[t].1 as int), keys[t]),
                forall|i: int|
                    0 <= i < n ==> #[trigger] self.kids(i) == (if exists|t: int|
                        0 <= t < k2 && (#[trigger] result@[t]).1 == i {
                        Seq::<usize>::empty()
                    } else {
                        g0.kids(i)
                    }),
            decreases result@.len() - k2,
        {
            let idx = result[k2].1;
            let ghost pre_g = *self;
            if idx != usize::MAX {
                proof {
                    assert(g0.live(idx as int));
                }
                let ghost pre_ch = self.children@;
                self.children[idx] = Vec::new();
                proof {
                    assert forall|i: int| 0 <= i < n && i != idx as int implies self.children@[i]
                        == pre_ch[i] && self.kids(i) == pre_g.kids(i) by {}
                    assert(self.kids(idx as int) =~= Seq::<usize>::empty());
                    assert(tbl_wf(self.nodes@, self.children@));
                    assert forall|i: int| 0 <= i < n implies #[trigger] self.kids(i) == (if exists|
                        t: int,
                    |
                        0 <= t < k2 + 1 && (#[trigger] result@[t]).1 == i {
                        Seq::<usize>::empty()
                    } else {
                        g0.kids(i)
                    }) by {
                        if i == idx as int {
                            assert(result@[k2 as int].1 == idx);
                        } else {
                            assert(self.children@[i] == pre_ch[i]);
                            assert(self.kids(i) == pre_g.kids(i));
                            if exists|t: int| 0 <= t < k2 && (#[trigger] result@[t]).1 == i {
                                let t = choose|t: int|
                                    0 <= t < k2 && (#[trigger] result@[t]).1 == i;
                                assert(0 <= t < k2 + 1 && (result@[t]).1 == i);
                            }
                            if exists|t: int| 0 <= t < k2 + 1 && (#[trigger] result@[t]).1 == i {
                                let t = choose|t: int|
                                    0 <= t < k2 + 1 && (#[trigger] result@[t]).1 == i;
                                assert(t != k2);
                                assert(0 <= t < k2 && (result@[t]).1 == i);
                            }
                        }
                    }
                }
            } else {
                proof {
                    assert forall|i: int| 0 <= i < n implies #[trigger] self.kids(i) == (if exists|
                        t: int,
                    |
                        0 <= t < k2 + 1 && (#[trigger] result@[t]).1 == i {
                        Seq::<usize>::empty()
                    } else {
                        g0.kids(i)
                    }) by {
                        if exists|t: int| 0 <= t < k2 + 1 && (#[trigger] result@[t]).1 == i {
                            let t = choose|t: int|
                                0 <= t < k2 + 1 && (#[trigger] result@[t]).1 == i;
                            assert(i >= 0);
                            assert(result@[t].1 != usize::MAX);
                            assert(t != k2);
                            assert(0 <= t < k2 && (result@[t]).1 == i);
                        }
                        if exists|t: int| 0 <= t < k2 && (#[trigger] result@[t]).1 == i {
                            let t = choose|t: int| 0 <= t < k2 && (#[trigger] result@[t]).1 == i;
                            assert(0 <= t < k2 + 1 && (result@[t]).1 == i);
                        }
                    }
                }
            }
            k2 = k2 + 1;
        }
        let ghost g1 = *self;
        proof {
            assert forall|i: int| 0 <= i < n implies (exists|t: int|
                0 <= t < keys.len() && (#[trigger] result@[t]).1 == i) <==> (g0.live(i)
                && g0.matched_by(keys, i)) by {
                if exists|t: int| 0 <= t < keys.len() && (#[trigger] result@[t]).1 == i {
                    let t = choose|t: int| 0 <= t < keys.len() && (#[trigger] result@[t]).1 == i;
                    assert(result@[t].1 != usize::MAX) by {
                        assert(i < n);
                        assert(i != usize::MAX as int);
                    }
                    assert(g0.live(i) && expr_eq(g0.expr_at(i), keys[t]));
                    assert(g0.matched_by(keys, i));
                }
                if g0.live(i) && g0.matched_by(keys, i) {
                    let kk = choose|kk: int|
                        0 <= kk < keys.len() && expr_eq(g0.expr_at(i), #[trigger] keys[kk]);
                    assert(g0.has_match(keys[kk]));
                    assert(result@[kk].1 != usize::MAX);
                    let j = result@[kk].1 as int;
                    assert(g0.live(j) && expr_eq(g0.expr_at(j), keys[kk]));
                    lemma_expr_eq_sym(g0.expr_at(j), keys[kk]);
                    lemma_expr_eq_trans(g0.expr_at(i), keys[kk], g0.expr_at(j));
                    if i != j {
                        assert(!expr_eq(g0.expr_at(i), g0.expr_at(j)));
                        assert(false);
                    }
                }
            }
            assert(g1.kids_view() =~= g0.pruned_view(keys)) by {
                assert forall|i: int| 0 <= i < n implies g1.kids_view()[i] == g0.pruned_view(
                    keys,
                )[i] by {
                    if g0.live(i) && g0.matched_by(keys, i) {
                        assert(g1.kids(i) =~= Seq::<usize>::empty());
                    } else {
                        assert(g1.kids(i) == g0.kids(i));
                    }
                }
            }
        }
        let vis = self.connected_nodes();
        let mut i3: usize = 0;
        while i3 < n
            invariant
                i3 <= n,
                n == self.n(),
                vis@.len() == n,
                self.spec_root() == g1.spec_root(),
                self.children@.len() == n,
                vis@[g1.spec_root()],
                forall|j: int|
                    0 <= j < n ==> ((#[trigger] vis@[j]) <==> reach_from(
                        g1.kids_view(),
                        g1.spec_root(),
                    ).contains(j)),
                forall|j: int|
                    0 <= j < i3 && vis@[j] ==> (#[trigger] self.nodes@[j]) == g1.nodes@[j],
                forall|j: int|
                    0 <= j < i3 && vis@[j] ==> (#[trigger] self.children@[j]) == g1.children@[j],
                forall|j: int| 0 <= j < i3 && !vis@[j] ==> (#[trigger] self.nodes@[j]) is None,
                forall|j: int|
                    0 <= j < i3 && !vis@[j] ==> (#[trigger] self.children@[j])@.len() == 0,
                forall|j: int| i3 <= j < n ==> (#[trigger] self.nodes@[j]) == g1.nodes@[j],
                forall|j: int| i3 <= j < n ==> (#[trigger] self.children@[j]) == g1.children@[j],
            decreases n - i3,
        {
            if !vis[i3] {
                let ghost pre_ns = self.nodes@;
                self.nodes[i3] = None;
                let ghost pre_ch = self.children@;
                self.children[i3] = Vec::new();
                proof {
                    assert forall|j: int| 0 <= j < n && j != i3 as int implies (
                    #[trigger] self.nodes@[j]) == pre_ns[j] && self.children@[j] == pre_ch[j] by {}
                    assert((self.children@[i3 as int])@ =~= Seq::<usize>::empty());
                }
            }
            i3 = i3 + 1;
        }
        proof {
            let ch1 = g1.kids_view();
            let root = g1.spec_root();
            let rset = reach_from(ch1, root);
            assert forall|j: int| (#[trigger] self.live(j)) <==> g1.live(j) && rset.contains(
                j,
            ) by {
                if 0 <= j < n {
                    if vis@[j] {
                        assert(self.nodes@[j] == g1.nodes@[j]);
                    }
                    if rset.contains(j) {
                        assert(vis@[j]);
                    }
                } else {
                    assert(!rset.contains(j)) by {
                        if rset.contains(j) {
                            lemma_reach_range(ch1, root, j);
                        }
                    }
                }
            }
            assert(tbl_wf(self.nodes@, self.children@)) by {
                assert forall|i: int| #[trigger] tbl_live(self.nodes@, i) implies forall|k: int|
                    0 <= k < self.children@[i]@.len() ==> (#[trigger] self.children@[i]@[k] as int)
                        < i && tbl_live(self.nodes@, self.children@[i]@[k] as int) by {
                    assert(self.live(i));
                    assert(vis@[i]);
                    assert(self.children@[i] == g1.children@[i]);
                    assert(g1.live(i));
                    assert forall|k: int| 0 <= k < self.children@[i]@.len() implies (
                    #[trigger] self.children@[i]@[k] as int) < i && tbl_live(
                        self.nodes@,
                        self.children@[i]@[k] as int,
                    ) by {
                        let c = g1.children@[i]@[k] as int;
                        assert(tbl_live(g1.nodes@, c) && c < i);
                        assert(ch1[i] == g1.kids(i));
                        lemma_reach_self(ch1, c);
                        lemma_reach_kid_mem(ch1, i, k, c);
                        lemma_reach_trans(ch1, root, i, c);
                        assert(rset.contains(c));
                        assert(vis@[c]);
                        assert(self.nodes@[c] == g1.nodes@[c]);
                    }
                }
                assert forall|i: int|
                    0 <= i < self.nodes@.len() && !tbl_live(self.nodes@, i) implies (
                #[trigger] self.children@[i]@).len() == 0 by {
                    if vis@[i] {
                        assert(self.children@[i] == g1.children@[i]);
                        assert(!tbl_live(g1.nodes@, i));
                    }
                }
                assert forall|i: int| #[trigger] tbl_live(self.nodes@, i) implies (
                self.children@[i]@.len() == 0 || (self.children@[i]@.len() == 2 && tbl_expr(
                    self.nodes@,
                    i,
                ) is Binary && expr_eq(
                    tbl_expr(self.nodes@, self.children@[i]@[0] as int),
                    *tbl_expr(self.nodes@, i)->Binary_0,
                ) && expr_eq(
                    tbl_expr(self.nodes@, self.children@[i]@[1] as int),
                    *tbl_expr(self.nodes@, i)->Binary_2,
                ))) by {
                    assert(vis@[i]);
                    assert(self.nodes@[i] == g1.nodes@[i]);
                    assert(self.children@[i] == g1.children@[i]);
                    assert(tbl_live(g1.nodes@, i));
                    if g1.children@[i]@.len() == 2 {
                        let c0 = g1.children@[i]@[0] as int;
                        let c1 = g1.children@[i]@[1] as int;
                        assert(ch1[i] == g1.kids(i));
                        lemma_reach_self(ch1, c0);
                        lemma_reach_kid_mem(ch1, i, 0, c0);
                        lemma_reach_trans(ch1, root, i, c0);
                        lemma_reach_self(ch1, c1);
                        lemma_reach_kid_mem(ch1, i, 1, c1);
                        lemma_reach_trans(ch1, root, i, c1);
                        assert(vis@[c0] && vis@[c1]);
                        assert(self.nodes@[c0] == g1.nodes@[c0]);
                        assert(self.nodes@[c1] == g1.nodes@[c1]);
                    }
                }
                assert forall|i: int, j: int|
                    tbl_live(self.nodes@, i) && tbl_live(self.nodes@, j) && i != j implies !expr_eq(
                        #[trigger] tbl_expr(self.nodes@, i),
                        #[trigger] tbl_expr(self.nodes@, j),
                    ) by {
                    assert(self.nodes@[i] == g1.nodes@[i]);
                    assert(self.nodes@[j] == g1.nodes@[j]);
                    assert(tbl_live(g1.nodes@, i) && tbl_live(g1.nodes@, j));
                }
                assert forall|i: int| #[trigger] tbl_live(self.nodes@, i) implies tbl_iv(
                    self.nodes@,
                    i,
                ).wf() by {
                    assert(self.nodes@[i] == g1.nodes@[i]);
                    assert(tbl_live(g1.nodes@, i));
                }
            }
            assert(self.live(self.spec_root())) by {
                assert(vis@[root]);
                assert(g1.live(root));
            }
            assert forall|i: int| #[trigger] self.live(i) implies self.kids(i) == (if g0.matched_by(
                keys,
                i,
            ) {
                Seq::<usize>::empty()
            } else {
                g0.kids(i)
            }) by {
                assert(vis@[i]);
                assert(self.children@[i] == g1.children@[i]);
                assert(g1.kids_view()[i] == g0.pruned_view(keys)[i]);
                assert(g0.live(i));
            }
        }
        result
    }
}

/// The numeric value of the sub-expression at slot `i` under a point
/// valuation `vn` of the numeric leaves.
pub open spec fn val_num(g: ExprIntervalGraph, vn: Map<int, int>, i: int) -> int
    decreases i,
{
    if !g.live(i) || g.kids(i).len() == 0 {
        vn[i]
    } else if g.kids(i).len() == 2 && 0 <= (g.kids(i)[0] as int) < i && 0 <= (g.kids(i)[1] as int)
        < i && g.expr_at(i) is Binary {
        let l = val_num(g, vn, g.kids(i)[0] as int);
        let r = val_num(g, vn, g.kids(i)[1] as int);
        match g.expr_at(i)->Binary_1 {
            Operator::Plus => l + r,
            Operator::Minus => l - r,
            _ => 0,
        }
    } else {
        0
    }
}

/// The truth value of the sub-expression at slot `i` under point
/// valuations `vn` of the numeric leaves and `vb` of the boolean
/// leaves.
pub open spec fn val_bool(
    g: ExprIntervalGraph,
    vn: Map<int, int>,
    vb: Map<int, bool>,
    i: int,
) -> bool
    decreases i,
{
    if !g.live(i) || g.kids(i).len() == 0 {
        vb[i]
    } else if g.kids(i).len() == 2 && 0 <= (g.kids(i)[0] as int) < i && 0 <= (g.kids(i)[1] as int)
        < i && g.expr_at(i) is Binary {
        let k0 = g.kids(i)[0] as int;
        let k1 = g.kids(i)[1] as int;
        match g.expr_at(i)->Binary_1 {
            Operator::Gt => val_num(g, vn, k0) > val_num(g, vn, k1),
            Operator::Lt => val_num(g, vn, k0) < val_num(g, vn, k1),
            Operator::And => val_bool(g, vn, vb, k0) && val_bool(g, vn, vb, k1),
            _ => false,
        }
    } else {
        false
    }
}

/// Whether the point valuations pick, for every leaf, a value inside
/// that leaf's current interval.
pub open spec fn consistent_valuation(
    g: ExprIntervalGraph,
    ivs: Seq<Interval>,
    vn: Map<int, int>,
    vb: Map<int, bool>,
) -> bool {
    forall|j: int|
        (#[trigger] g.live(j)) && g.kids(j).len() == 0 ==> (if ivs[j].dt() == DataType::Boolean {
            ivs[j].contains_bool(vb[j])
        } else {
            ivs[j].contains_int(vn[j])
        })
}

/// Whether no comparison in the graph is decided "certainly true" by
/// a closed target boundary alone: the child intervals of every
/// comparison must not merely touch. Without this, the closed targets
/// `[0, +inf)` and `(-inf, 0]` let a strict comparison evaluate to
/// certainly-true although the two sides can still be equal.
pub open spec fn strict_comparisons(g: ExprIntervalGraph, ivs: Seq<Interval>) -> bool {
    forall|j: int|
        (#[trigger] g.live(j)) && g.kids(j).len() == 2 && g.expr_at(j) is Binary && g.expr_at(
            j,
        )->Binary_1.is_comparison() ==> {
            let l = spec_eval(g, ivs, g.kids(j)[0] as int);
            let r = spec_eval(g, ivs, g.kids(j)[1] as int);
            (l is Some && r is Some) ==> ((g.expr_at(j)->Binary_1 is Gt ==> !(l->0.lo() is Some
                && r->0.hi() is Some && l->0.lo()->0 == r->0.hi()->0)) && (g.expr_at(
                j,
            )->Binary_1 is Lt ==> !(l->0.hi() is Some && r->0.lo() is Some && l->0.hi()->0
                == r->0.lo()->0)))
        }
}

/// Soundness of evaluation: for any leaf assignment and any point
/// valuation consistent with it, the interval that bottom-up
/// evaluation computes for a node contains the node's value at that
/// point. In particular the computed root interval contains the root
/// expression's value.
pub proof fn lemma_evaluation_sound(
    g: ExprIntervalGraph,
    ivs: Seq<Interval>,
    vn: Map<int, int>,
    vb: Map<int, bool>,
    i: int,
)
    requires
        g.wf(),
        ivs.len() == g.n(),
        forall|j: int| #[trigger] g.live(j) ==> ivs[j].wf(),
        consistent_valuation(g, ivs, vn, vb),
        strict_comparisons(g, ivs),
        g.live(i),
        spec_eval(g, ivs, i) is Some,
    ensures
        spec_eval(g, ivs, i)->0.dt() != DataType::Boolean ==> spec_eval(
            g,
            ivs,
            i,
        )->0.contains_int(val_num(g, vn, i)),
        spec_eval(g, ivs, i)->0.dt() == DataType::Boolean ==> spec_eval(
            g,
            ivs,
            i,
        )->0.contains_bool(val_bool(g, vn, vb, i)),
    decreases i,
{
    if g.kids(i).len() == 0 {
        assert(spec_eval(g, ivs, i) == Some(ivs[i]));
        if ivs[i].dt() != DataType::Boolean {
            assert(ivs[i].contains_int(vn[i]));
        }
    } else {
        let k0 = g.kids(i)[0] as int;
        let k1 = g.kids(i)[1] as int;
        let op = g.expr_at(i)->Binary_1;
        let l = spec_eval(g, ivs, k0)->0;
        let r = spec_eval(g, ivs, k1)->0;
        lemma_evaluation_sound(g, ivs, vn, vb, k0);
        lemma_evaluation_sound(g, ivs, vn, vb, k1);
        lemma_spec_eval_wf(g, ivs, k0);
        lemma_spec_eval_wf(g, ivs, k1);
        lemma_apply_wf(op, l, r);
        match op {
            Operator::Plus => {
                crate::interval::lemma_add_sound(l, r, val_num(g, vn, k0), val_num(g, vn, k1));
            },
            Operator::Minus => {
                crate::interval::lemma_sub_sound(l, r, val_num(g, vn, k0), val_num(g, vn, k1));
            },
            Operator::Gt => {
                crate::interval::lemma_gt_sound(l, r, val_num(g, vn, k0), val_num(g, vn, k1));
            },
            Operator::Lt => {
                crate::interval::lemma_lt_sound(l, r, val_num(g, vn, k0), val_num(g, vn, k1));
            },
            Operator::And => {
                crate::interval::lemma_and_sound(
                    l,
                    r,
                    val_bool(g, vn, vb, k0),
                    val_bool(g, vn, vb, k1),
                );
            },
        }
    }
}

/// Monotonicity of evaluation: shrinking any leaf interval cannot
/// widen any node's evaluated interval, and cannot make evaluation
/// fail.
pub proof fn lemma_evaluation_monotone(
    g: ExprIntervalGraph,
    ivs1: Seq<Interval>,
    ivs2: Seq<Interval>,
    i: int,
)
    requires
        g.wf(),
        ivs1.len() == g.n(),
        ivs2.len() == g.n(),
        forall|j: int| #[trigger] g.live(j) ==> ivs1[j].wf(),
        forall|j: int| #[trigger] g.live(j) ==> ivs2[j].wf(),
        forall|j: int|
            (#[trigger] g.live(j)) && g.kids(j).len() == 0 ==> ivs2[j].subset_of(ivs1[j]),
        g.live(i),
        spec_eval(g, ivs1, i) is Some,
    ensures
        spec_eval(g, ivs2, i) is Some,
        spec_eval(g, ivs2, i)->0.subset_of(spec_eval(g, ivs1, i)->0),
    decreases i,
{
    if g.kids(i).len() == 0 {
        assert(spec_eval(g, ivs1, i) == Some(ivs1[i]));
        assert(spec_eval(g, ivs2, i) == Some(ivs2[i]));
    } else {
        let k0 = g.kids(i)[0] as int;
        let k1 = g.kids(i)[1] as int;
        let op = g.expr_at(i)->Binary_1;
        lemma_evaluation_monotone(g, ivs1, ivs2, k0);
        lemma_evaluation_monotone(g, ivs1, ivs2, k1);
        lemma_spec_eval_wf(g, ivs1, k0);
        lemma_spec_eval_wf(g, ivs1, k1);
        lemma_spec_eval_wf(g, ivs2, k0);
        lemma_spec_eval_wf(g, ivs2, k1);
        crate::interval::lemma_apply_monotone(
            op,
            spec_eval(g, ivs1, k0)->0,
            spec_eval(g, ivs1, k1)->0,
            spec_eval(g, ivs2, k0)->0,
            spec_eval(g, ivs2, k1)->0,
        );
    }
}

/// Arithmetic propagation loses no feasible point: when a point pair
/// from the children satisfies the parent constraint, both tightened
/// children exist and keep their respective points.
pub proof fn lemma_propagate_arithmetic_lossless(
    op: Operator,
    p: Interval,
    l: Interval,
    r: Interval,
    x: int,
    y: int,
)
    requires
        op.is_arithmetic(),
        p.wf(),
        l.wf(),
        r.wf(),
        p.dt() == l.dt(),
        l.dt() == r.dt(),
        p.dt() != DataType::Boolean,
        l.contains_int(x),
        r.contains_int(y),
        p.contains_int(
            if op is Plus {
                x + y
            } else {
                x - y
            },
        ),
    ensures
        spec_propagate_arithmetic(op, p, l, r) is Some,
        (spec_propagate_arithmetic(op, p, l, r)->0).0 is Some,
        (spec_propagate_arithmetic(op, p, l, r)->0).1 is Some,
        (((spec_propagate_arithmetic(op, p, l, r)->0).0)->0).contains_int(x),
        (((spec_propagate_arithmetic(op, p, l, r)->0).1)->0).contains_int(y),
{
    lemma_prop_arith_defined(op, p, l, r);
    let inv = spec_inverse(op);
    lemma_apply_wf(inv, p, r);
    let li = spec_apply(inv, p, r)->0;
    if op is Plus {
        crate::interval::lemma_sub_sound(p, r, x + y, y);
        assert(li.contains_int(x));
        crate::interval::lemma_intersect_point(li, l, x);
        let nl = spec_intersect(li, l)->0;
        lemma_intersect_props(li, l);
        crate::interval::lemma_sub_sound(p, nl, x + y, x);
        lemma_apply_wf(inv, p, nl);
        let riv = spec_apply(inv, p, nl)->0;
        assert(riv.contains_int(y));
        crate::interval::lemma_intersect_point(riv, r, y);
    } else {
        crate::interval::lemma_add_sound(p, r, x - y, y);
        assert(li.contains_int(x));
        crate::interval::lemma_intersect_point(li, l, x);
        let nl = spec_intersect(li, l)->0;
        lemma_intersect_props(li, l);
        crate::interval::lemma_sub_sound(nl, p, x, x - y);
        lemma_apply_wf(Operator::Minus, nl, p);
        let riv = spec_apply(Operator::Minus, nl, p)->0;
        assert(riv.contains_int(y));
        crate::interval::lemma_intersect_point(riv, r, y);
    }
}

/// Comparison propagation loses no feasible point: a point pair that
/// satisfies the strict comparison survives the tightening of both
/// children.
pub proof fn lemma_propagate_comparison_lossless(
    op: Operator,
    l: Interval,
    r: Interval,
    x: int,
    y: int,
)
    requires
        op.is_comparison(),
        l.wf(),
        r.wf(),
        l.dt() == r.dt(),
        l.dt() != DataType::Boolean,
        l.contains_int(x),
        r.contains_int(y),
        op is Gt ==> x > y,
        op is Lt ==> x < y,
    ensures
        spec_propagate_comparison(op, l, r) is Some,
        (spec_propagate_comparison(op, l, r)->0).0 is Some,
        (spec_propagate_comparison(op, l, r)->0).1 is Some,
        (((spec_propagate_comparison(op, l, r)->0).0)->0).contains_int(x),
        (((spec_propagate_comparison(op, l, r)->0).1)->0).contains_int(y),
{
    let t = spec_comparison_target(l.dt(), op);
    crate::interval::lemma_mk_num(
        l.dt(),
        if op is Gt {
            Some(0int)
        } else {
            None
        },
        if op is Gt {
            None
        } else {
            Some(0int)
        },
    );
    assert(t.contains_int(x - y));
    lemma_propagate_arithmetic_lossless(Operator::Minus, t, l, r, x, y);
}

/// Numeric evaluation soundness, without any proviso: an evaluated
/// numeric interval contains the node's value at any point valuation
/// consistent with the leaves.
pub proof fn lemma_evaluation_sound_num(
    g: ExprIntervalGraph,
    ivs: Seq<Interval>,
    vn: Map<int, int>,
    vb: Map<int, bool>,
    i: int,
)
    requires
        g.wf(),
        ivs.len() == g.n(),
        forall|j: int| #[trigger] g.live(j) ==> ivs[j].wf(),
        consistent_valuation(g, ivs, vn, vb),
        g.live(i),
        spec_eval(g, ivs, i) is Some,
        spec_eval(g, ivs, i)->0.dt() != DataType::Boolean,
    ensures
        spec_eval(g, ivs, i)->0.contains_int(val_num(g, vn, i)),
    decreases i,
{
    if g.kids(i).len() == 0 {
    } else {
        let k0 = g.kids(i)[0] as int;
        let k1 = g.kids(i)[1] as int;
        let op = g.expr_at(i)->Binary_1;
        let l = spec_eval(g, ivs, k0)->0;
        let r = spec_eval(g, ivs, k1)->0;
        lemma_spec_eval_wf(g, ivs, k0);
        lemma_spec_eval_wf(g, ivs, k1);
        lemma_apply_wf(op, l, r);
        assert(op.is_arithmetic());
        lemma_evaluation_sound_num(g, ivs, vn, vb, k0);
        lemma_evaluation_sound_num(g, ivs, vn, vb, k1);
        if op is Plus {
            crate::interval::lemma_add_sound(l, r, val_num(g, vn, k0), val_num(g, vn, k1));
        } else {
            crate::interval::lemma_sub_sound(l, r, val_num(g, vn, k0), val_num(g, vn, k1));
        }
    }
}

/// Boolean upper-side evaluation soundness, without any proviso:
/// whenever the node's value at a consistent point valuation is
/// true, the evaluated boolean interval's upper end is true.
pub proof fn lemma_evaluation_sound_bool_upper(
    g: ExprIntervalGraph,
    ivs: Seq<Interval>,
    vn: Map<int, int>,
    vb: Map<int, bool>,
    i: int,
)
    requires
        g.wf(),
        ivs.len() == g.n(),
        forall|j: int| #[trigger] g.live(j) ==> ivs[j].wf(),
        consistent_valuation(g, ivs, vn, vb),
        g.live(i),
        spec_eval(g, ivs, i) is Some,
        spec_eval(g, ivs, i)->0.dt() == DataType::Boolean,
    ensures
        val_bool(g, vn, vb, i) ==> spec_eval(g, ivs, i)->0.hi_bool(),
    decreases i,
{
    if g.kids(i).len() == 0 {
    } else {
        let k0 = g.kids(i)[0] as int;
        let k1 = g.kids(i)[1] as int;
        let op = g.expr_at(i)->Binary_1;
        let l = spec_eval(g, ivs, k0)->0;
        let r = spec_eval(g, ivs, k1)->0;
        lemma_spec_eval_wf(g, ivs, k0);
        lemma_spec_eval_wf(g, ivs, k1);
        lemma_apply_wf(op, l, r);
        if op.is_comparison() {
            lemma_evaluation_sound_num(g, ivs, vn, vb, k0);
            lemma_evaluation_sound_num(g, ivs, vn, vb, k1);
            if val_bool(g, vn, vb, i) {
                if op is Gt {
                    crate::interval::lemma_gt_upper_sound(
                        l,
                        r,
                        val_num(g, vn, k0),
                        val_num(g, vn, k1),
                    );
                } else {
                    crate::interval::lemma_lt_upper_sound(
                        l,
                        r,
                        val_num(g, vn, k0),
                        val_num(g, vn, k1),
                    );
                }
            }
        } else if op.is_logic() {
            lemma_evaluation_sound_bool_upper(g, ivs, vn, vb, k0);
            lemma_evaluation_sound_bool_upper(g, ivs, vn, vb, k1);
            if val_bool(g, vn, vb, i) {
                crate::interval::lemma_and_upper_sound(
                    l,
                    r,
                    val_bool(g, vn, vb, k0),
                    val_bool(g, vn, vb, k1),
                );
            }
        }
    }
}

/// A root evaluated to the certainly-false boolean interval is
/// unsatisfiable: no point valuation consistent with the node
/// intervals makes the root expression true, so the whole batch may
/// be pruned.
pub proof fn lemma_certainly_false_root_unsat(
    g: ExprIntervalGraph,
    ivs: Seq<Interval>,
    vn: Map<int, int>,
    vb: Map<int, bool>,
)
    requires
        g.wf(),
        ivs.len() == g.n(),
        forall|j: int| #[trigger] g.live(j) ==> ivs[j].wf(),
        consistent_valuation(g, ivs, vn, vb),
        spec_eval(g, ivs, g.spec_root()) == Some(crate::interval::mk_bool(false, false)),
    ensures
        !val_bool(g, vn, vb, g.spec_root()),
{
    lemma_evaluation_sound_bool_upper(g, ivs, vn, vb, g.spec_root());
}

/// Whether the point valuation satisfies every comparison node of
/// the graph. For a root that is a conjunction of comparisons this
/// says exactly that the valuation satisfies the root predicate.
pub open spec fn sat_comparisons(g: ExprIntervalGraph, vn: Map<int, int>) -> bool {
    forall|i: int|
        (#[trigger] g.live(i)) && g.kids(i).len() == 2 && g.expr_at(i) is Binary ==> {
            let x = val_num(g, vn, g.kids(i)[0] as int);
            let y = val_num(g, vn, g.kids(i)[1] as int);
            (g.expr_at(i)->Binary_1 is Gt ==> x > y) && (g.expr_at(i)->Binary_1 is Lt ==> x < y)
        }
}

/// Whether every numeric node interval of the state contains the
/// node's value under the point valuation.
pub open spec fn state_holds_valuation(
    g: ExprIntervalGraph,
    ivs: Seq<Interval>,
    vn: Map<int, int>,
) -> bool {
    forall|i: int|
        (#[trigger] g.live(i)) && ivs[i].dt() != DataType::Boolean ==> ivs[i].contains_int(
            val_num(g, vn, i),
        )
}

/// The arithmetic case of `lemma_prop_step_lossless`.
#[verifier::rlimit(100)]
proof fn lemma_prop_step_lossless_arith(
    g: ExprIntervalGraph,
    ivs: Seq<Interval>,
    vn: Map<int, int>,
    i: int,
)
    requires
        g.wf(),
        ivs.len() == g.n(),
        forall|j: int| #[trigger] g.live(j) ==> ivs[j].wf(),
        state_holds_valuation(g, ivs, vn),
        sat_comparisons(g, vn),
        g.live(i),
        g.kids(i).len() == 2,
        0 <= i < ivs.len(),
        0 <= (g.kids(i)[0] as int) < ivs.len(),
        0 <= (g.kids(i)[1] as int) < ivs.len(),
        g.expr_at(i)->Binary_1.is_arithmetic(),
        spec_propagate_arithmetic(
            g.expr_at(i)->Binary_1,
            ivs[i],
            ivs[g.kids(i)[0] as int],
            ivs[g.kids(i)[1] as int],
        ) is Some,
    ensures
        spec_prop_step(g, ivs, i) is Some,
        spec_prop_step(g, ivs, i)->0.len() == ivs.len(),
        forall|j: int| #[trigger] g.live(j) ==> spec_prop_step(g, ivs, i)->0[j].wf(),
        state_holds_valuation(g, spec_prop_step(g, ivs, i)->0, vn),
{
    let k0 = g.kids(i)[0] as int;
    let k1 = g.kids(i)[1] as int;
    let op = g.expr_at(i)->Binary_1;
    let x = val_num(g, vn, k0);
    let y = val_num(g, vn, k1);
    assert(g.live(k0) && g.live(k1));
    let res = spec_propagate_arithmetic(op, ivs[i], ivs[k0], ivs[k1]);
    let inv = spec_inverse(op);
    lemma_apply_wf(inv, ivs[i], ivs[k1]);
    let li = spec_apply(inv, ivs[i], ivs[k1])->0;
    assert(ivs[i].dt() == ivs[k1].dt() && ivs[i].dt() != DataType::Boolean);
    assert(li.dt() == ivs[k0].dt());
    assert(ivs[k0].contains_int(x));
    assert(ivs[k1].contains_int(y));
    assert(val_num(g, vn, i) == (if op is Plus {
        x + y
    } else {
        x - y
    }));
    assert(ivs[i].contains_int(val_num(g, vn, i)));
    lemma_propagate_arithmetic_lossless(op, ivs[i], ivs[k0], ivs[k1], x, y);
    let nl = ((res->0).0)->0;
    let nr = ((res->0).1)->0;
    lemma_prop_arith_subset(op, ivs[i], ivs[k0], ivs[k1]);
    lemma_prop_state_update(g, ivs, vn, i, k0, k1, nl, nr, x, y);
    assert(spec_prop_step(g, ivs, i) == Some(ivs.update(k0, nl).update(k1, nr)));
}

/// The comparison case of `lemma_prop_step_lossless`.
#[verifier::rlimit(100)]
proof fn lemma_prop_step_lossless_cmp(
    g: ExprIntervalGraph,
    ivs: Seq<Interval>,
    vn: Map<int, int>,
    i: int,
)
    requires
        g.wf(),
        ivs.len() == g.n(),
        forall|j: int| #[trigger] g.live(j) ==> ivs[j].wf(),
        state_holds_valuation(g, ivs, vn),
        sat_comparisons(g, vn),
        g.live(i),
        g.kids(i).len() == 2,
        0 <= i < ivs.len(),
        0 <= (g.kids(i)[0] as int) < ivs.len(),
        0 <= (g.kids(i)[1] as int) < ivs.len(),
        g.expr_at(i)->Binary_1.is_comparison(),
        spec_propagate_comparison(
            g.expr_at(i)->Binary_1,
            ivs[g.kids(i)[0] as int],
            ivs[g.kids(i)[1] as int],
        ) is Some,
        !(ivs[i] == crate::interval::mk_bool(false, false)),
    ensures
        spec_prop_step(g, ivs, i) is Some,
        spec_prop_step(g, ivs, i)->0.len() == ivs.len(),
        forall|j: int| #[trigger] g.live(j) ==> spec_prop_step(g, ivs, i)->0[j].wf(),
        state_holds_valuation(g, spec_prop_step(g, ivs, i)->0, vn),
{
    let k0 = g.kids(i)[0] as int;
    let k1 = g.kids(i)[1] as int;
    let op = g.expr_at(i)->Binary_1;
    let x = val_num(g, vn, k0);
    let y = val_num(g, vn, k1);
    assert(g.live(k0) && g.live(k1));
    let res = spec_propagate_comparison(op, ivs[k0], ivs[k1]);
    assert(ivs[k0].dt() != DataType::Boolean);
    let tgt = spec_comparison_target(ivs[k0].dt(), op);
    lemma_apply_wf(Operator::Plus, tgt, ivs[k1]);
    assert(ivs[k0].dt() == ivs[k1].dt());
    assert(ivs[k0].contains_int(x));
    assert(ivs[k1].contains_int(y));
    lemma_propagate_comparison_lossless(op, ivs[k0], ivs[k1], x, y);
    let nl = ((res->0).0)->0;
    let nr = ((res->0).1)->0;
    lemma_prop_cmp_subset(op, ivs[k0], ivs[k1]);
    lemma_prop_state_update(g, ivs, vn, i, k0, k1, nl, nr, x, y);
    assert(spec_prop_step(g, ivs, i) == Some(ivs.update(k0, nl).update(k1, nr)));
}

/// The refined children of arithmetic propagation are well-formed
/// subsets of the original children.
proof fn lemma_prop_arith_subset(op: Operator, p: Interval, l: Interval, r: Interval)
    requires
        op.is_arithmetic(),
        p.wf(),
        l.wf(),
        r.wf(),
        spec_propagate_arithmetic(op, p, l, r) is Some,
    ensures
        (spec_propagate_arithmetic(op, p, l, r)->0).0 matches Some(nl) ==> nl.wf()
            && nl.subset_of(l),
        (spec_propagate_arithmetic(op, p, l, r)->0).1 matches Some(nr) ==> nr.wf()
            && nr.subset_of(r),
{
    let inv = spec_inverse(op);
    lemma_apply_wf(inv, p, r);
    let li = spec_apply(inv, p, r)->0;
    lemma_intersect_props(li, l);
    match spec_intersect(li, l) {
        None => {},
        Some(nl) => {
            if op is Minus {
                lemma_apply_wf(Operator::Minus, nl, p);
                lemma_intersect_props(spec_apply(Operator::Minus, nl, p)->0, r);
            } else {
                lemma_apply_wf(inv, p, nl);
                lemma_intersect_props(spec_apply(inv, p, nl)->0, r);
            }
        },
    }
}

/// The refined children of comparison propagation are well-formed
/// subsets of the original children.
proof fn lemma_prop_cmp_subset(op: Operator, l: Interval, r: Interval)
    requires
        op.is_comparison(),
        l.wf(),
        r.wf(),
        spec_propagate_comparison(op, l, r) is Some,
    ensures
        (spec_propagate_comparison(op, l, r)->0).0 matches Some(nl) ==> nl.wf() && nl.subset_of(
            l,
        ),
        (spec_propagate_comparison(op, l, r)->0).1 matches Some(nr) ==> nr.wf() && nr.subset_of(
            r,
        ),
{
    crate::interval::lemma_mk_num(
        l.dt(),
        if op is Gt {
            Some(0int)
        } else {
            None
        },
        if op is Gt {
            None
        } else {
            Some(0int)
        },
    );
    lemma_prop_arith_subset(Operator::Minus, spec_comparison_target(l.dt(), op), l, r);
}

/// One top-down step loses no valuation that satisfies every
/// comparison: the step cannot report infeasibility, and the written
/// child intervals keep the valuation's values.
proof fn lemma_prop_step_lossless(
    g: ExprIntervalGraph,
    ivs: Seq<Interval>,
    vn: Map<int, int>,
    i: int,
)
    requires
        g.wf(),
        ivs.len() == g.n(),
        forall|j: int| #[trigger] g.live(j) ==> ivs[j].wf(),
        state_holds_valuation(g, ivs, vn),
        sat_comparisons(g, vn),
    ensures
        spec_prop_step(g, ivs, i) is Some,
        spec_prop_step(g, ivs, i)->0.len() == ivs.len(),
        forall|j: int| #[trigger] g.live(j) ==> spec_prop_step(g, ivs, i)->0[j].wf(),
        state_holds_valuation(g, spec_prop_step(g, ivs, i)->0, vn),
{
    if g.live(i) && g.kids(i).len() == 2 && 0 <= i < ivs.len() {
        let k0 = g.kids(i)[0] as int;
        let k1 = g.kids(i)[1] as int;
        if 0 <= k0 < ivs.len() && 0 <= k1 < ivs.len() {
            let e = g.expr_at(i);
            let op = e->Binary_1;
            let pn = crate::expr::spec_propagate_node(e, ivs[i], seq![ivs[k0], ivs[k1]]);
            if pn is Some && pn->0.len() != 0 {
                if op.is_arithmetic() {
                    lemma_prop_step_lossless_arith(g, ivs, vn, i);
                } else if op.is_comparison() {
                    lemma_prop_step_lossless_cmp(g, ivs, vn, i);
                }
            }
        }
    }
}

/// Writing two tightened child intervals that keep the valuation's
/// values preserves the state predicate.
proof fn lemma_prop_state_update(
    g: ExprIntervalGraph,
    ivs: Seq<Interval>,
    vn: Map<int, int>,
    i: int,
    k0: int,
    k1: int,
    nl: Interval,
    nr: Interval,
    x: int,
    y: int,
)
    requires
        g.wf(),
        ivs.len() == g.n(),
        forall|j: int| #[trigger] g.live(j) ==> ivs[j].wf(),
        state_holds_valuation(g, ivs, vn),
        0 <= k0 < ivs.len(),
        0 <= k1 < ivs.len(),
        x == val_num(g, vn, k0),
        y == val_num(g, vn, k1),
        nl.wf(),
        nr.wf(),
        nl.subset_of(ivs[k0]),
        nr.subset_of(ivs[k1]),
        nl.contains_int(x),
        nr.contains_int(y),
    ensures
        forall|j: int|
            #[trigger] g.live(j) ==> ivs.update(k0, nl).update(k1, nr)[j].wf(),
        state_holds_valuation(g, ivs.update(k0, nl).update(k1, nr), vn),
{
    let post = ivs.update(k0, nl).update(k1, nr);
    assert forall|j: int|
        (#[trigger] g.live(j)) && post[j].dt() != DataType::Boolean implies post[j].contains_int(
        val_num(g, vn, j),
    ) by {
        if j == k1 {
        } else if j == k0 {
        } else {
            assert(post[j] == ivs[j]);
        }
    }
}

/// The whole top-down pass loses no valuation that satisfies every
/// comparison.
proof fn lemma_prop_seg_lossless(
    g: ExprIntervalGraph,
    ivs: Seq<Interval>,
    vn: Map<int, int>,
    hi: int,
    lo: int,
)
    requires
        g.wf(),
        ivs.len() == g.n(),
        forall|j: int| #[trigger] g.live(j) ==> ivs[j].wf(),
        state_holds_valuation(g, ivs, vn),
        sat_comparisons(g, vn),
    ensures
        spec_prop_seg(g, ivs, hi, lo) is Some,
        spec_prop_seg(g, ivs, hi, lo)->0.len() == ivs.len(),
        state_holds_valuation(g, spec_prop_seg(g, ivs, hi, lo)->0, vn),
    decreases hi - lo + 1,
{
    if hi >= lo {
        lemma_prop_step_lossless(g, ivs, vn, hi);
        let s = spec_prop_step(g, ivs, hi)->0;
        lemma_prop_seg_lossless(g, s, vn, hi - 1, lo);
    }
}

/// Each slot of an assigned state holds either its original interval
/// or one of the written ones.
proof fn lemma_assign_ivs_pointwise(ivs: Seq<Interval>, s: Seq<(usize, Interval)>, j: int)
    requires
        forall|k: int| 0 <= k < s.len() ==> (#[trigger] s[k]).0 < ivs.len(),
        0 <= j < ivs.len(),
    ensures
        spec_assign_ivs(ivs, s)[j] == ivs[j] || exists|k: int|
            0 <= k < s.len() && (#[trigger] s[k]).1 == spec_assign_ivs(ivs, s)[j],
    decreases s.len(),
{
    if s.len() > 0 {
        lemma_assign_ivs_len(ivs, s.drop_last());
        lemma_assign_ivs_pointwise(ivs, s.drop_last(), j);
        if spec_assign_ivs(ivs, s)[j] != ivs[j] {
            if j == s.last().0 as int && spec_assign_ivs(ivs, s)[j] == s.last().1 {
                assert((s[s.len() - 1]).1 == spec_assign_ivs(ivs, s)[j]);
            } else {
                let k = choose|k: int|
                    0 <= k < s.drop_last().len() && (#[trigger] s.drop_last()[k]).1
                        == spec_assign_ivs(ivs, s.drop_last())[j];
                assert((s[k]).1 == spec_assign_ivs(ivs, s)[j]);
            }
        }
    }
}

impl ExprIntervalGraph {
    /// Tightening loses nothing: a point valuation that picks a value
    /// inside every assigned leaf interval and satisfies every
    /// comparison of the graph survives evaluation and the whole
    /// top-down pass. Combined with `update_ranges`'s contract this
    /// says: when `update_ranges` reports `Infeasible` from its
    /// propagation pass, no such valuation exists, and on `Success`
    /// every such valuation still lies inside the tightened bounds.
    pub proof fn lemma_propagation_lossless(
        g: ExprIntervalGraph,
        bounds: Seq<(usize, Interval)>,
        vn: Map<int, int>,
        vb: Map<int, bool>,
    )
        requires
            g.wf(),
            forall|k: int|
                0 <= k < bounds.len() ==> g.live((#[trigger] bounds[k]).0 as int)
                    && bounds[k].1.wf(),
            eval_ok(g, g.assigned_ivs(bounds)),
            consistent_valuation(g, g.assigned_ivs(bounds), vn, vb),
            sat_comparisons(g, vn),
        ensures
            g.spec_propagated(bounds) is Some,
            forall|i: int|
                (#[trigger] g.live(i)) && g.spec_propagated(bounds)->0[i].dt()
                    != DataType::Boolean ==> g.spec_propagated(bounds)->0[i].contains_int(
                    val_num(g, vn, i),
                ),
    {
        let ivs1 = g.assigned_ivs(bounds);
        assert forall|k: int| 0 <= k < bounds.len() implies (#[trigger] bounds[k]).0
            < g.ivs().len() by {
            assert(g.live(bounds[k].0 as int));
        }
        lemma_assign_ivs_len(g.ivs(), bounds);
        assert forall|j: int| #[trigger] g.live(j) implies ivs1[j].wf() by {
            lemma_assign_ivs_pointwise(g.ivs(), bounds, j);
            assert(g.ivs()[j] == g.interval_at(j));
            if ivs1[j] != g.ivs()[j] {
                let k = choose|k: int|
                    0 <= k < bounds.len() && (#[trigger] bounds[k]).1 == ivs1[j];
            }
        }
        let evs = spec_eval_all(g, ivs1);
        assert(evs.len() == ivs1.len());
        assert forall|i: int|
            (#[trigger] g.live(i)) && evs[i].dt() != DataType::Boolean implies (
        evs[i]).contains_int(val_num(g, vn, i)) by {
            assert(spec_eval(g, ivs1, i) is Some);
            assert(evs[i] == spec_eval(g, ivs1, i)->0);
            lemma_evaluation_sound_num(g, ivs1, vn, vb, i);
        }
        assert forall|j: int| #[trigger] g.live(j) implies evs[j].wf() by {
            assert(spec_eval(g, ivs1, j) is Some);
            lemma_spec_eval_wf(g, ivs1, j);
        }
        lemma_prop_seg_lossless(g, evs, vn, g.n() - 1, 0);
    }
}

/// The node intervals after a sequence of assignments is written, in
/// order, over `ivs`.
pub open spec fn spec_assign_ivs(ivs: Seq<Interval>, s: Seq<(usize, Interval)>) -> Seq<Interval>
    decreases s.len(),
{
    if s.len() == 0 {
        ivs
    } else {
        spec_assign_ivs(ivs, s.drop_last()).update(s.last().0 as int, s.last().1)
    }
}

} // verus!
