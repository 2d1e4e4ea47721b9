use cp_solver::cp_solver::propagate_arithmetic;
use cp_solver::cp_solver::propagate_comparison;
use cp_solver::cp_solver::ExprIntervalGraph;
use cp_solver::cp_solver::ExprIntervalGraphNode;
use cp_solver::cp_solver::PropagationResult;
use cp_solver::errors::DataFusionError;
use cp_solver::expr::Expr;
use cp_solver::expr::Operator;
use cp_solver::interval::apply_operator;
use cp_solver::interval::Interval;
use cp_solver::scalar::DataType;
use cp_solver::scalar::ScalarValue;

fn i32_interval(lower: Option<i32>, upper: Option<i32>) -> Interval {
    Interval {
        lower: ScalarValue::Int32(lower),
        upper: ScalarValue::Int32(upper),
    }
}

#[test]
fn add_exact() {
    let a = i32_interval(Some(1), Some(2));
    let b = i32_interval(Some(3), Some(4));
    let r = apply_operator(&Operator::Plus, &a, &b).unwrap();
    assert_eq!(r, i32_interval(Some(4), Some(6)));
}

#[test]
fn sub_exact() {
    let a = i32_interval(Some(1), Some(2));
    let b = i32_interval(Some(3), Some(4));
    let r = apply_operator(&Operator::Minus, &a, &b).unwrap();
    assert_eq!(r, i32_interval(Some(-3), Some(-1)));
}

#[test]
fn add_with_unbounded_ends() {
    let a = i32_interval(Some(1), None);
    let b = i32_interval(None, Some(4));
    let r = apply_operator(&Operator::Plus, &a, &b).unwrap();
    assert_eq!(r, i32_interval(None, None));
}

#[test]
fn add_overflow_saturates() {
    // The upper bound overflows and widens to +inf; the lower bound
    // overflows toward the representable side and clamps to the
    // type's maximum.
    let a = i32_interval(Some(i32::MAX - 1), Some(i32::MAX));
    let b = i32_interval(Some(2), Some(2));
    let r = apply_operator(&Operator::Plus, &a, &b).unwrap();
    assert_eq!(r, i32_interval(Some(i32::MAX), None));

    let c = i32_interval(Some(i32::MIN), Some(i32::MIN + 1));
    let d = i32_interval(Some(-2), Some(-2));
    let s = apply_operator(&Operator::Plus, &c, &d).unwrap();
    assert_eq!(s, i32_interval(None, Some(i32::MIN)));
}

#[test]
fn comparison_bounds() {
    let lo = i32_interval(Some(1), Some(2));
    let hi = i32_interval(Some(3), Some(4));
    // certainly false: [1,2] > [3,4]
    let r = apply_operator(&Operator::Gt, &lo, &hi).unwrap();
    assert_eq!(
        r,
        Interval {
            lower: ScalarValue::Boolean(Some(false)),
            upper: ScalarValue::Boolean(Some(false)),
        }
    );
    // certainly true: [3,4] > [1,2]
    let r = apply_operator(&Operator::Gt, &hi, &lo).unwrap();
    assert_eq!(
        r,
        Interval {
            lower: ScalarValue::Boolean(Some(true)),
            upper: ScalarValue::Boolean(Some(true)),
        }
    );
    // undecided: [1,3] > [2,4]
    let r = apply_operator(
        &Operator::Gt,
        &i32_interval(Some(1), Some(3)),
        &i32_interval(Some(2), Some(4)),
    )
    .unwrap();
    assert_eq!(
        r,
        Interval {
            lower: ScalarValue::Boolean(Some(false)),
            upper: ScalarValue::Boolean(Some(true)),
        }
    );
    // [3,4] < [1,2] is certainly false; [1,2] < [3,4] certainly true.
    let r = apply_operator(&Operator::Lt, &hi, &lo).unwrap();
    assert_eq!(r.lower, ScalarValue::Boolean(Some(false)));
    assert_eq!(r.upper, ScalarValue::Boolean(Some(false)));
    let r = apply_operator(&Operator::Lt, &lo, &hi).unwrap();
    assert_eq!(r.lower, ScalarValue::Boolean(Some(true)));
    assert_eq!(r.upper, ScalarValue::Boolean(Some(true)));
}

#[test]
fn type_mismatch_is_an_error() {
    let a = i32_interval(Some(1), Some(2));
    let b = Interval {
        lower: ScalarValue::Int64(Some(1)),
        upper: ScalarValue::Int64(Some(2)),
    };
    assert!(matches!(
        apply_operator(&Operator::Plus, &a, &b),
        Err(DataFusionError::TypeMismatch(DataType::Int32, DataType::Int64))
    ));
    assert!(matches!(
        a.intersect(&b),
        Err(DataFusionError::TypeMismatch(DataType::Int32, DataType::Int64))
    ));
}

#[test]
fn arithmetic_over_booleans_is_an_error() {
    let t = Interval {
        lower: ScalarValue::Boolean(Some(true)),
        upper: ScalarValue::Boolean(Some(true)),
    };
    assert!(matches!(
        apply_operator(&Operator::Plus, &t, &t),
        Err(DataFusionError::UnsupportedType(DataType::Boolean))
    ));
    assert!(matches!(
        apply_operator(&Operator::Gt, &t, &t),
        Err(DataFusionError::UnsupportedType(DataType::Boolean))
    ));
}

#[test]
fn conjunction_over_numerics_is_an_error() {
    let a = i32_interval(Some(1), Some(2));
    assert!(matches!(
        apply_operator(&Operator::And, &a, &a),
        Err(DataFusionError::UnsupportedType(DataType::Int32))
    ));
}

#[test]
fn intersect_commutes() {
    let a = i32_interval(Some(1), Some(10));
    let b = i32_interval(Some(5), None);
    assert_eq!(a.intersect(&b).unwrap(), b.intersect(&a).unwrap());
    assert_eq!(a.intersect(&b).unwrap(), Some(i32_interval(Some(5), Some(10))));

    let c = i32_interval(None, Some(0));
    let d = i32_interval(Some(3), Some(4));
    assert_eq!(c.intersect(&d).unwrap(), d.intersect(&c).unwrap());
    assert_eq!(c.intersect(&d).unwrap(), None);
}

#[test]
fn add_then_subtract_recovers_operand() {
    // The inverse law on finite intervals: ((a + b) - b) meets a in
    // exactly a.
    let a = i32_interval(Some(2), Some(7));
    let b = i32_interval(Some(-3), Some(5));
    let sum = apply_operator(&Operator::Plus, &a, &b).unwrap();
    let back = apply_operator(&Operator::Minus, &sum, &b).unwrap();
    assert_eq!(back.intersect(&a).unwrap(), Some(a));
}

#[test]
fn contains_and_singleton() {
    let a = i32_interval(Some(1), Some(10));
    let b = i32_interval(Some(2), Some(3));
    assert!(a.contains(&b).unwrap());
    assert!(!b.contains(&a).unwrap());
    assert!(!a.is_singleton());
    assert!(i32_interval(Some(4), Some(4)).is_singleton());
    let unbounded = Interval::unbounded_of(DataType::Int32);
    assert_eq!(unbounded, i32_interval(None, None));
    assert!(unbounded.contains(&a).unwrap());
}

#[test]
fn propagate_arithmetic_example() {
    // Propagating [4, 4] through x + y with x in [1, 4] and y in
    // [-3, 1] tightens x to [3, 4] and y to [0, 1].
    let parent = i32_interval(Some(4), Some(4));
    let x = i32_interval(Some(1), Some(4));
    let y = i32_interval(Some(-3), Some(1));
    let (nx, ny) = propagate_arithmetic(&Operator::Plus, &parent, &x, &y).unwrap();
    assert_eq!(nx, Some(i32_interval(Some(3), Some(4))));
    assert_eq!(ny, Some(i32_interval(Some(0), Some(1))));
}

#[test]
fn propagate_arithmetic_infeasible() {
    // An empty intersection on the left child short-circuits.
    let parent = i32_interval(Some(100), Some(100));
    let x = i32_interval(Some(0), Some(1));
    let y = i32_interval(Some(0), Some(1));
    let (nx, ny) = propagate_arithmetic(&Operator::Plus, &parent, &x, &y).unwrap();
    assert_eq!(nx, None);
    assert_eq!(ny, None);
}

#[test]
fn propagate_comparison_example() {
    // x > y with x in [0, 10] and y in [5, 20] forces x into [5, 10]
    // and y into [5, 10] (closed comparison targets allow equality).
    let x = i32_interval(Some(0), Some(10));
    let y = i32_interval(Some(5), Some(20));
    let (nx, ny) = propagate_comparison(&Operator::Gt, &x, &y).unwrap();
    assert_eq!(nx, Some(i32_interval(Some(5), Some(10))));
    assert_eq!(ny, Some(i32_interval(Some(5), Some(10))));
}

#[test]
fn update_ranges_is_idempotent_on_same_bounds() {
    // Two consecutive update_ranges calls starting from the bounds the
    // first call produced give the same final bounds.
    let l = Expr::Column("l".to_string(), 0);
    let r = Expr::Column("r".to_string(), 1);
    let expr = Expr::Binary(
        Box::new(Expr::Binary(
            Box::new(l.clone()),
            Operator::Plus,
            Box::new(Expr::Literal(ScalarValue::Int32(Some(1)))),
        )),
        Operator::Gt,
        Box::new(r.clone()),
    );
    let mut graph = ExprIntervalGraph::try_new(expr).unwrap();
    let handles = graph.gather_node_indices(&[l, r]);
    let mut bounds = vec![
        (handles[0].1, i32_interval(Some(0), Some(10))),
        (handles[1].1, i32_interval(Some(5), Some(50))),
    ];
    let first = graph.update_ranges(&mut bounds).unwrap();
    assert_eq!(first, PropagationResult::Success);
    let after_first = bounds.clone();
    let second = graph.update_ranges(&mut bounds).unwrap();
    assert_eq!(second, PropagationResult::Success);
    assert_eq!(bounds, after_first);
}

#[test]
fn disjoint_leaf_ranges_are_infeasible() {
    // l > r with l entirely below r can never hold.
    let l = Expr::Column("l".to_string(), 0);
    let r = Expr::Column("r".to_string(), 1);
    let expr = Expr::Binary(Box::new(l.clone()), Operator::Gt, Box::new(r.clone()));
    let mut graph = ExprIntervalGraph::try_new(expr).unwrap();
    let handles = graph.gather_node_indices(&[l, r]);
    let mut bounds = vec![
        (handles[0].1, i32_interval(Some(0), Some(4))),
        (handles[1].1, i32_interval(Some(10), Some(20))),
    ];
    let outcome = graph.update_ranges(&mut bounds).unwrap();
    assert_eq!(outcome, PropagationResult::Infeasible);
}

#[test]
fn numeric_root_cannot_propagate() {
    // A plain arithmetic root is not a boolean predicate.
    let l = Expr::Column("l".to_string(), 0);
    let expr = Expr::Binary(
        Box::new(l.clone()),
        Operator::Plus,
        Box::new(Expr::Literal(ScalarValue::Int32(Some(10)))),
    );
    let mut graph = ExprIntervalGraph::try_new(expr).unwrap();
    let handles = graph.gather_node_indices(&[l]);
    let mut bounds = vec![(handles[0].1, i32_interval(Some(10), Some(20)))];
    let outcome = graph.update_ranges(&mut bounds).unwrap();
    assert_eq!(outcome, PropagationResult::CannotPropagate);
    assert_eq!(bounds[0].1, i32_interval(Some(10), Some(20)));
}

#[test]
fn evaluate_bounds_of_sum() {
    // Bounds of col + 10 over col in [10, 20] are [20, 30].
    let l = Expr::Column("gnz".to_string(), 0);
    let expr = Expr::Binary(
        Box::new(l.clone()),
        Operator::Plus,
        Box::new(Expr::Literal(ScalarValue::Int32(Some(10)))),
    );
    let mut graph = ExprIntervalGraph::try_new(expr).unwrap();
    let node_indices = graph.gather_node_indices(&[l]);
    let left_index = node_indices.get(0).unwrap().1;
    let intervals = vec![(left_index, i32_interval(Some(10), Some(20)))];
    graph.assign_intervals(&intervals);
    assert_eq!(
        graph.evaluate_bounds().unwrap(),
        i32_interval(Some(20), Some(30))
    );
}

#[test]
fn graph_nodes_start_with_expected_intervals() {
    let node = ExprIntervalGraphNode::new(Expr::Column("a".to_string(), 0));
    assert_eq!(node.interval(), &i32_interval(None, None));

    let made = ExprIntervalGraphNode::make_node(&Expr::Literal(ScalarValue::Int32(Some(7))));
    assert_eq!(made.interval(), &i32_interval(Some(7), Some(7)));

    let seeded = ExprIntervalGraphNode::new_with_interval(
        Expr::Column("a".to_string(), 0),
        i32_interval(Some(1), Some(2)),
    );
    assert_eq!(seeded.interval(), &i32_interval(Some(1), Some(2)));

    // Node equality goes by the expression, not the interval.
    let other = ExprIntervalGraphNode::new(Expr::Column("a".to_string(), 0));
    assert!(seeded == other);
}

#[test]
fn certainly_true_root_cannot_propagate() {
    // l > r with l entirely above r holds for every point, so there
    // is nothing to tighten.
    let l = Expr::Column("l".to_string(), 0);
    let r = Expr::Column("r".to_string(), 1);
    let expr = Expr::Binary(Box::new(l.clone()), Operator::Gt, Box::new(r.clone()));
    let mut graph = ExprIntervalGraph::try_new(expr).unwrap();
    let handles = graph.gather_node_indices(&[l, r]);
    let mut bounds = vec![
        (handles[0].1, i32_interval(Some(10), Some(20))),
        (handles[1].1, i32_interval(Some(0), Some(5))),
    ];
    let outcome = graph.update_ranges(&mut bounds).unwrap();
    assert_eq!(outcome, PropagationResult::CannotPropagate);
    assert_eq!(bounds[0].1, i32_interval(Some(10), Some(20)));
    assert_eq!(bounds[1].1, i32_interval(Some(0), Some(5)));
}

#[test]
fn column_bounds_cannot_be_evaluated() {
    // A column's range comes from outside; asking it to evaluate its
    // own bounds is not implemented.
    let c = Expr::Column("a".to_string(), 0);
    assert!(matches!(
        c.evaluate_bounds(&Vec::new()),
        Err(DataFusionError::NotImplemented(_))
    ));
    assert!(matches!(
        c.propagate_constraints(&i32_interval(None, None), &Vec::new()),
        Err(DataFusionError::NotImplemented(_))
    ));
}

#[test]
fn expression_children_are_ordered() {
    let l = Expr::Column("a".to_string(), 0);
    let r = Expr::Column("b".to_string(), 1);
    let e = Expr::Binary(Box::new(l.clone()), Operator::Plus, Box::new(r.clone()));
    let cs = e.children();
    assert_eq!(cs.len(), 2);
    assert!(cs[0] == l);
    assert!(cs[1] == r);
    assert!(l.children().is_empty());
    assert!(Expr::Literal(ScalarValue::Int32(Some(1))).children().is_empty());
}

#[test]
fn mixed_datatype_graph_evaluation_fails() {
    // An Int32 column compared against an Int64 literal is a datatype
    // error, surfaced by update_ranges.
    let l = Expr::Column("l".to_string(), 0);
    let expr = Expr::Binary(
        Box::new(l.clone()),
        Operator::Gt,
        Box::new(Expr::Literal(ScalarValue::Int64(Some(3)))),
    );
    let mut graph = ExprIntervalGraph::try_new(expr).unwrap();
    let handles = graph.gather_node_indices(&[l]);
    let mut bounds = vec![(handles[0].1, i32_interval(Some(0), Some(5)))];
    assert!(matches!(
        graph.update_ranges(&mut bounds),
        Err(DataFusionError::TypeMismatch(DataType::Int32, DataType::Int64))
    ));
}

#[test]
fn int64_intervals_work_too() {
    let a = Interval {
        lower: ScalarValue::Int64(Some(1)),
        upper: ScalarValue::Int64(Some(i64::MAX)),
    };
    let b = Interval {
        lower: ScalarValue::Int64(Some(1)),
        upper: ScalarValue::Int64(Some(1)),
    };
    let r = apply_operator(&Operator::Plus, &a, &b).unwrap();
    assert_eq!(r.lower, ScalarValue::Int64(Some(2)));
    assert_eq!(r.upper, ScalarValue::Int64(None));
}
